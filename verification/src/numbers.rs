//! How numbers are written and what figures are derived from others: digits and bits, rates,
//! targets and the figures of a comparison.
use crate::bitstream;
use crate::frame;
use crate::frame::Raster;
use crate::picture;
use crate::session;
use crate::text;
use crate::y4m;
use vstd::prelude::*;

verus! {

/// A number is read back from its digits, which do not start with a zero, the number 0 apart.
pub proof fn law_decimal_read_back(n: nat)
    ensures
        text::number(text::decimal(n)) == Some(n as int),
        n > 0 ==> text::decimal(n)[0] != '0',
{
    lemma_digits(n);
    let s = text::decimal(n);
    assert(s[0] != '+');
}

proof fn lemma_digits(n: nat)
    ensures
        text::decimal(n).len() > 0,
        text::digits_value(text::decimal(n), text::decimal(n).len() as int) == Some(n as int),
        '0' <= text::decimal(n)[0] && text::decimal(n)[0] <= '9',
        n > 0 ==> text::decimal(n)[0] != '0',
    decreases n,
{
    let s = text::decimal(n);
    if n < 10 {
        assert(s[0] as int == 48 + n);
        assert(text::digits_value(s, 0) == Some(0int));
    } else {
        lemma_digits(n / 10);
        let t = text::decimal(n / 10);
        lemma_digits_kept(t, s, t.len() as int);
        assert(s.last() as int == 48 + n % 10);
    }
}

proof fn lemma_digits_kept(t: Seq<char>, s: Seq<char>, k: int)
    requires
        0 <= k <= t.len(),
        t.len() <= s.len(),
        forall|i: int| 0 <= i < t.len() ==> t[i] == s[i],
    ensures
        text::digits_value(s, k) == text::digits_value(t, k),
    decreases k,
{
    if k > 0 {
        lemma_digits_kept(t, s, k - 1);
    }
}

/// The bits of a number come with the most significant first: bit `i` of `n` stands for two to
/// the power `n - 1 - i`.
pub proof fn law_significant_bits_first(v: nat, n: nat, i: int)
    requires
        0 <= i < n,
    ensures
        bitstream::bits_of(v, n).len() == n,
        bitstream::bits_of(v, n)[i] == ((v / bitstream::two_pow((n - 1 - i) as nat)) % 2 == 1),
    decreases n,
{
    let less = (n - 1) as nat;
    lemma_bit_count(v, n);
    lemma_bit_count(v / 2, less);
    if i == n - 1 {
        assert(bitstream::two_pow(0) == 1);
        assert(v / 1 == v);
    } else {
        law_significant_bits_first(v / 2, less, i);
        let p = bitstream::two_pow((n - 2 - i) as nat);
        lemma_power_positive((n - 2 - i) as nat);
        assert(bitstream::two_pow((n - 1 - i) as nat) == 2 * p);
        vstd::arithmetic::div_mod::lemma_div_denominator(v as int, 2, p as int);
    }
}

proof fn lemma_bit_count(v: nat, n: nat)
    ensures
        bitstream::bits_of(v, n).len() == n,
    decreases n,
{
    if n > 0 {
        lemma_bit_count(v / 2, (n - 1) as nat);
    }
}

proof fn lemma_power_positive(n: nat)
    ensures
        bitstream::two_pow(n) > 0,
    decreases n,
{
    if n > 0 {
        lemma_power_positive((n - 1) as nat);
    }
}

/// Bits fill bytes from the most significant bit of the first one on, and what is left of the
/// last byte is zero.
pub proof fn law_bits_in_bytes(bits: Seq<bool>, i: int)
    requires
        0 <= i < 8 * bitstream::pack(bits).len(),
    ensures
        ((bitstream::pack(bits)[i / 8] >> ((7 - i % 8) as u8)) & 1 == 1) == (i < bits.len()
            && bits[i]),
        bitstream::pack(bits).len() == (bits.len() + 7) / 8,
{
    bitstream::lemma_pack(bits);
    assert(bitstream::bytes_bits(bitstream::pack(bits))[i] == (bits + bitstream::padding(
        bits.len(),
    ))[i]);
}

/// A number of groups of 7 bits to the power of how many there are.
pub open spec fn group_power(n: nat) -> nat
    decreases n,
{
    if n == 0 {
        1
    } else {
        128 * group_power((n - 1) as nat)
    }
}

/// A multibyte has groups of 7 bits with the most significant first, a set top bit on all but
/// the last, and no more groups than the number needs.
pub proof fn law_multibyte_groups(v: nat, i: int)
    requires
        0 <= i < bitstream::multibyte(v).len(),
    ensures
        ({
            let g = bitstream::multibyte(v);
            let n = g.len() as int;
            &&& g[i] as int % 128 == (v / group_power((n - 1 - i) as nat)) as int % 128
            &&& g[i] >= 128 <==> i < n - 1
            &&& v < group_power(n as nat)
            &&& n > 1 ==> group_power((n - 1) as nat) <= v
        }),
{
    lemma_groups(v, true, i);
}

proof fn lemma_groups(v: nat, last: bool, i: int)
    requires
        0 <= i < bitstream::groups7(v, last).len(),
    ensures
        ({
            let g = bitstream::groups7(v, last);
            let n = g.len() as int;
            &&& g[i] as int % 128 == (v / group_power((n - 1 - i) as nat)) as int % 128
            &&& g[i] >= 128 <==> (i < n - 1 || !last)
            &&& v < group_power(n as nat)
            &&& n > 1 ==> group_power((n - 1) as nat) <= v
        }),
    decreases v,
{
    let g = bitstream::groups7(v, last);
    let n = g.len() as int;
    if v < 128 {
        assert(group_power(0) == 1);
        assert(group_power(1) == 128 * group_power(0));
        assert(v / 1 == v);
    } else {
        let h = bitstream::groups7(v / 128, false);
        assert(h.len() == n - 1);
        lemma_some_group(v / 128, false);
        let j = if i < n - 1 {
            i
        } else {
            0
        };
        lemma_groups(v / 128, false, j);
        let top = group_power((n - 1) as nat);
        assert(group_power(n as nat) == 128 * top);
        assert(v < 128 * top) by (nonlinear_arith)
            requires
                v / 128 < top,
        ;
        if n - 1 > 1 {
            let low = group_power((n - 2) as nat);
            assert(top == 128 * low);
            assert(128 * low <= v) by (nonlinear_arith)
                requires
                    low <= v / 128,
            ;
        } else {
            assert(group_power(0) == 1);
            assert(group_power(1) == 128 * group_power(0));
        }
        if i < n - 1 {
            let p = group_power((n - 2 - i) as nat);
            lemma_group_power_positive((n - 2 - i) as nat);
            assert(group_power((n - 1 - i) as nat) == 128 * p);
            vstd::arithmetic::div_mod::lemma_div_denominator(v as int, 128, p as int);
        } else {
            assert(group_power(0) == 1);
            assert(v / 1 == v);
        }
    }
}

proof fn lemma_some_group(v: nat, last: bool)
    ensures
        bitstream::groups7(v, last).len() > 0,
    decreases v,
{
    if v >= 128 {
        lemma_some_group(v / 128, false);
    }
}

proof fn lemma_group_power_positive(n: nat)
    ensures
        group_power(n) > 0,
    decreases n,
{
    if n > 0 {
        lemma_group_power_positive((n - 1) as nat);
    }
}

/// The frame rate of a stream is the whole number nearest to its ratio, the larger of two.
pub proof fn law_rate_is_nearest(num: int, den: int)
    requires
        num >= 0,
        den > 0,
    ensures
        ({
            let r = session::nearest_ratio(num, den);
            -den <= 2 * (num - r * den) < den
        }),
{
    let a = 2 * num + den;
    let d = 2 * den;
    vstd::arithmetic::div_mod::lemma_fundamental_div_mod(a, d);
    let r = a / d;
    assert(d * r == 2 * (r * den)) by (nonlinear_arith)
        requires
            d == 2 * den,
    ;
}

/// The frames of a second have the bytes of a second of the bit rate, up to less than a byte
/// each: a thousand bits per unit of the rate, and eight bits per byte.
pub proof fn law_bytes_of_a_second(kbps: int, fps: int)
    requires
        kbps >= 1,
        fps >= 1,
    ensures
        ({
            let n = session::bytes_per_frame(kbps, fps);
            n * fps <= 125 * kbps < n * fps + fps
        }),
{
    assert(kbps * 1000 / 8 == 125 * kbps);
    let a = 125 * kbps;
    vstd::arithmetic::div_mod::lemma_fundamental_div_mod(a, fps);
    let n = a / fps;
    assert(fps * n == n * fps) by (nonlinear_arith);
}

/// The figures of a comparison: all samples are counted, no two samples are further apart than
/// the largest difference, some two are as far apart, and the error is that of the pictures.
pub proof fn law_comparison_figures(
    a: Seq<Raster<u16>>,
    b: Seq<Raster<u16>>,
    n: int,
    p: int,
    i: int,
)
    requires
        0 <= p < n,
        n <= a.len(),
        n <= b.len(),
        forall|q: int| 0 <= q < n ==> (#[trigger] a[q]).data.len() == b[q].data.len(),
        0 <= i < a[p].data.len(),
    ensures
        ({
            let (samples, largest, sse) = session::difference(a, b, n);
            &&& samples == session::sample_count(a, n)
            &&& -largest <= a[p].data[i] - b[p].data[i] <= largest
            &&& sse == picture::total_error(a, b, n)
            &&& largest > 0 ==> exists|q: int, j: int|
                0 <= q < n && 0 <= j < a[q].data.len() && {
                    ||| (#[trigger] a[q].data[j]) - b[q].data[j] == largest
                    ||| b[q].data[j] - a[q].data[j] == largest
                }
        }),
{
    lemma_figures(a, b, n, p, i);
}

proof fn lemma_figures(a: Seq<Raster<u16>>, b: Seq<Raster<u16>>, n: int, p: int, i: int)
    requires
        0 <= n <= a.len(),
        n <= b.len(),
        forall|q: int| 0 <= q < n ==> (#[trigger] a[q]).data.len() == b[q].data.len(),
    ensures
        ({
            let (samples, largest, sse) = session::difference(a, b, n);
            &&& largest >= 0
            &&& samples == session::sample_count(a, n)
            &&& 0 <= p < n && 0 <= i < a[p].data.len() ==> -largest <= a[p].data[i] - b[p].data[i]
                <= largest
            &&& sse == picture::total_error(a, b, n)
            &&& largest > 0 ==> exists|q: int, j: int|
                0 <= q < n && 0 <= j < a[q].data.len() && {
                    ||| (#[trigger] a[q].data[j]) - b[q].data[j] == largest
                    ||| b[q].data[j] - a[q].data[j] == largest
                }
        }),
    decreases n,
{
    if n > 0 {
        lemma_figures(a, b, n - 1, p, i);
        let x = a[n - 1].data;
        let y = b[n - 1].data;
        let k = x.len() as int;
        lemma_apart(x, y, k, i);
        let here = session::largest_apart(x, y, k);
        let before = session::difference(a, b, n - 1).1;
        if here > before {
            let j = choose|j: int| 0 <= j < k && #[trigger] session::apart(x[j], y[j]) == here;
            assert(a[n - 1].data[j] - b[n - 1].data[j] == here || b[n - 1].data[j] - a[n
                - 1].data[j] == here);
        } else if before > 0 {
            let (q, j) = choose|q: int, j: int|
                0 <= q < n - 1 && 0 <= j < a[q].data.len() && {
                    ||| (#[trigger] a[q].data[j]) - b[q].data[j] == before
                    ||| b[q].data[j] - a[q].data[j] == before
                };
            assert(a[q].data[j] - b[q].data[j] == before || b[q].data[j] - a[q].data[j] == before);
        }
    }
}

proof fn lemma_apart(x: Seq<u16>, y: Seq<u16>, k: int, i: int)
    requires
        0 <= k <= x.len(),
        k <= y.len(),
    ensures
        session::largest_apart(x, y, k) >= 0,
        0 <= i < k ==> session::apart(x[i], y[i]) <= session::largest_apart(x, y, k),
        session::largest_apart(x, y, k) > 0 ==> exists|j: int|
            0 <= j < k && #[trigger] session::apart(x[j], y[j]) == session::largest_apart(x, y, k),
    decreases k,
{
    if k > 0 {
        lemma_apart(x, y, k - 1, i);
        let rest = session::largest_apart(x, y, k - 1);
        if session::apart(x[k - 1], y[k - 1]) > rest {
            assert(session::apart(x[k - 1], y[k - 1]) == session::largest_apart(x, y, k));
        } else if rest > 0 {
            let j = choose|j: int| 0 <= j < k - 1 && #[trigger] session::apart(x[j], y[j]) == rest;
            assert(session::apart(x[j], y[j]) == session::largest_apart(x, y, k));
        }
    }
}

/// A dump has samples of 10 bits: those of 8 bits are raised by two bits, those of 10 bits stay,
/// and what exceeds a depth is limited to its largest value.
pub proof fn law_dumped_depth(v: u16, w: u16)
    requires
        v <= w,
    ensures
        session::dumped(v, 8) <= session::dumped(w, 8) <= 1020,
        session::dumped(v, 10) <= session::dumped(w, 10) <= 1023,
        v <= 255 ==> session::dumped(v, 8) == 4 * v,
        v >= 255 ==> session::dumped(v, 8) == 1020,
        v <= 1023 ==> session::dumped(v, 10) == v,
        v >= 1023 ==> session::dumped(v, 10) == 1023,
{
}

/// The fixed-point value of a sample: the middle of the range of samples is zero, and the range
/// spans half of 16 bits at every depth. At 8 bits a sample has 128 units, at 10 bits 32.
pub proof fn law_fixed_scale(v: int, w: int, depth: int)
    requires
        1 <= depth <= 14,
        0 <= v < bitstream::two_pow(depth as nat),
        0 <= w < bitstream::two_pow(depth as nat),
    ensures
        frame::fixed_of_sample(v, depth) - frame::fixed_of_sample(w, depth) == (v - w)
            * bitstream::two_pow((15 - depth) as nat),
        frame::fixed_of_sample(0, depth) == -16384,
        depth == 8 ==> frame::fixed_of_sample(v, depth) == (v - 128) * 128,
        depth == 10 ==> frame::fixed_of_sample(v, depth) == (v - 512) * 32,
        -16384 <= frame::fixed_of_sample(v, depth) < 16384,
{
    let unit = bitstream::two_pow((15 - depth) as nat) as int;
    let top = bitstream::two_pow(depth as nat) as int;
    bitstream::lemma_two_pow_add((15 - depth) as nat, depth as nat);
    assert(((15 - depth) as nat + depth as nat) as nat == 15);
    bitstream::lemma_two_pow_values();
    lemma_powers();
    lemma_power_positive((15 - depth) as nat);
    assert(unit * top == 32768);
    assert(0 <= v * unit < 32768 && 0 <= w * unit < 32768) by (nonlinear_arith)
        requires
            unit * top == 32768,
            0 <= v < top,
            0 <= w < top,
            unit > 0,
    ;
    assert((v - w) * unit == v * unit - w * unit) by (nonlinear_arith);
    assert(0 * unit == 0);
}

proof fn lemma_powers()
    ensures
        bitstream::two_pow(5) == 32,
        bitstream::two_pow(7) == 128,
        bitstream::two_pow(8) == 256,
        bitstream::two_pow(10) == 1024,
        bitstream::two_pow(15) == 32768,
{
    reveal_with_fuel(bitstream::two_pow, 16);
}

/// The sample of a fixed-point value is the one whose value it reaches when a quarter of a sample
/// is added to it, or the first or last one beyond the range. A larger value never gives a smaller
/// sample.
pub proof fn law_sample_reached(f: int, g: int, depth: int)
    requires
        1 <= depth <= 13,
        f <= g,
    ensures
        ({
            let s = frame::sample_of_fixed(f, depth);
            let unit = bitstream::two_pow((15 - depth) as nat) as int;
            let top = bitstream::two_pow(depth as nat) as int;
            let value = s * unit - 16384;
            &&& 0 <= s < top
            &&& s <= frame::sample_of_fixed(g, depth)
            &&& 0 < s < top - 1 ==> 4 * value <= 4 * f + unit < 4 * value + 4 * unit
            &&& s == 0 ==> 4 * f + unit < 4 * (unit - 16384)
            &&& s == top - 1 ==> 4 * value <= 4 * f + unit
        }),
{
    let unit = bitstream::two_pow((15 - depth) as nat) as int;
    let mid = bitstream::two_pow((depth - 1) as nat) as int;
    let top = bitstream::two_pow(depth as nat) as int;
    let r = frame::sample_rounding(depth);
    bitstream::lemma_two_pow_add((15 - depth) as nat, (depth - 1) as nat);
    assert(((15 - depth) as nat + (depth - 1) as nat) as nat == 14);
    bitstream::lemma_two_pow_values();
    lemma_powers();
    assert(bitstream::two_pow(14) == 16384) by {
        assert(bitstream::two_pow(15) == 2 * bitstream::two_pow(14));
    }
    bitstream::lemma_two_pow_add((13 - depth) as nat, 2);
    assert(((13 - depth) as nat + 2) as nat == (15 - depth) as nat);
    assert(unit == 4 * r);
    assert(top == 2 * mid);
    assert(unit * mid == 16384);
    lemma_power_positive((15 - depth) as nat);
    lemma_power_positive((depth - 1) as nat);
    bitstream::lemma_two_pow_mono(depth as nat, 14);
    let a = (f + r) / unit;
    let b = (g + r) / unit;
    vstd::arithmetic::div_mod::lemma_fundamental_div_mod(f + r, unit);
    vstd::arithmetic::div_mod::lemma_fundamental_div_mod(g + r, unit);
    assert(a <= b) by (nonlinear_arith)
        requires
            f + r <= g + r,
            f + r == unit * a + (f + r) % unit,
            g + r == unit * b + (g + r) % unit,
            0 <= (f + r) % unit < unit,
            0 <= (g + r) % unit < unit,
    ;
    let s = frame::sample_of_fixed(f, depth);
    assert(s * unit - 16384 == unit * (s - mid)) by (nonlinear_arith)
        requires
            unit * mid == 16384,
    ;
    if s == 0 {
        assert(unit * a + unit <= unit - 16384) by (nonlinear_arith)
            requires
                a + mid <= 0,
                unit * mid == 16384,
                unit > 0,
        ;
    } else if s == top - 1 {
        assert(unit * (s - mid) <= unit * a) by (nonlinear_arith)
            requires
                s - mid <= a,
                unit > 0,
        ;
    }
}

/// Frames of 10 bits that are coded at 8 bits lose the two lowest bits of every sample.
pub proof fn law_shifted_samples(planes: Seq<Raster<u16>>, p: int, i: int)
    requires
        0 <= p < planes.len(),
        0 <= i < planes[p].data.len(),
    ensures
        ({
            let low = y4m::shifted(planes);
            &&& low.len() == planes.len()
            &&& (low[p].width, low[p].height) == (planes[p].width, planes[p].height)
            &&& low[p].data.len() == planes[p].data.len()
            &&& 4 * low[p].data[i] <= planes[p].data[i] < 4 * low[p].data[i] + 4
        }),
{
}

} // verus!
