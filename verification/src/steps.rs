//! How the step widths of layers follow from the step width of a LOQ.
use crate::dequant;
use crate::frame;
use vstd::prelude::*;

verus! {

proof fn lemma_div_between(a: int, d: int)
    requires
        d > 0,
    ensures
        d * (a / d) <= a < d * (a / d) + d,
{
    vstd::arithmetic::div_mod::lemma_fundamental_div_mod(a, d);
}

/// The temporal step width is that of the LOQ lowered by so many 255ths, up to rounding and at
/// most by half. It never grows with the modifier, and never shrinks with the step width.
pub proof fn law_temporal_step(modifier: int, more: int, sw: int, wider: int)
    requires
        0 <= modifier <= more,
        1 <= sw <= wider <= 32767,
    ensures
        dequant::temporal_step(0, sw) == sw,
        dequant::temporal_step(more, sw) <= dequant::temporal_step(modifier, sw) <= sw,
        dequant::temporal_step(modifier, sw) <= dequant::temporal_step(modifier, wider),
        sw <= 2 * dequant::temporal_step(modifier, sw) + 1,
        modifier <= 127 ==> -510 <= 255 * dequant::temporal_step(modifier, sw) - sw * (255
            - modifier) <= 510,
        modifier >= 128 ==> dequant::temporal_step(modifier, sw) == (if sw < 2 {
            1
        } else {
            sw / 2
        }),
{
    let low = |m: int|
        if m * 257 < 32768 {
            m * 257
        } else {
            32768
        };
    let a = low(modifier);
    let b = low(more);
    assert((65536 - b) * sw <= (65536 - a) * sw) by (nonlinear_arith)
        requires
            a <= b,
            sw >= 1,
    ;
    assert((65536 - a) * sw <= (65536 - a) * wider) by (nonlinear_arith)
        requires
            a <= 32768,
            sw <= wider,
    ;
    assert(32768 * sw <= (65536 - b) * sw) by (nonlinear_arith)
        requires
            b <= 32768,
            sw >= 1,
    ;
    assert((65536 - a) * sw <= 65536 * sw) by (nonlinear_arith)
        requires
            a >= 0,
            sw >= 1,
    ;
    assert((65536 - 0) * sw == 65536 * sw);
    if modifier <= 127 {
        assert(a == modifier * 257);
        let v = (65536 - a) * sw;
        assert(v == 65536 * sw - 257 * (modifier * sw)) by (nonlinear_arith)
            requires
                a == modifier * 257,
                v == (65536 - a) * sw,
        ;
        assert(sw * (255 - modifier) == 255 * sw - modifier * sw) by (nonlinear_arith);
        assert(0 <= modifier * sw <= 127 * 32767) by (nonlinear_arith)
            requires
                0 <= modifier <= 127,
                1 <= sw <= 32767,
        ;
    }
}

/// The step width of a layer before its modifier grows with the entry of the quantization matrix
/// and with the master step width. Without an entry it is the master step width itself; it is at
/// most three times that, and in between the entry adds its share of the master step width in
/// 65536ths.
pub proof fn law_matrix_step(qm: int, more: int, sw: int, wider: int)
    requires
        0 <= qm <= more,
        1 <= sw <= wider <= 32767,
    ensures
        dequant::matrix_step(0, sw) == sw,
        dequant::matrix_step(qm, sw) <= dequant::matrix_step(more, sw),
        dequant::matrix_step(qm, sw) <= dequant::matrix_step(qm, wider),
        sw <= dequant::matrix_step(qm, sw) <= 3 * sw,
        qm * sw <= 131072 && dequant::matrix_step(qm, sw) < 32767 ==> {
            let s = dequant::matrix_step(qm, sw);
            65536 * (s - sw) <= qm * sw * sw < 65536 * (s - sw) + 65536
        },
        qm * sw >= 131072 && 3 * sw <= 32767 ==> dequant::matrix_step(qm, sw) == 3 * sw,
{
    let f = |q: int, w: int| frame::clamp(q * w + 65536, 0, 196608);
    assert(0 <= qm * sw <= more * sw && qm * sw <= qm * wider) by (nonlinear_arith)
        requires
            0 <= qm <= more,
            1 <= sw <= wider,
    ;
    let a = f(qm, sw);
    let b = f(more, sw);
    let c = f(qm, wider);
    assert(65536 <= a <= b && a <= c && a <= 196608);
    assert(a * sw <= b * sw) by (nonlinear_arith)
        requires
            a <= b,
            sw >= 1,
    ;
    assert(a * sw <= c * wider) by (nonlinear_arith)
        requires
            0 <= a <= c,
            1 <= sw <= wider,
    ;
    assert(65536 * sw <= a * sw <= 196608 * sw) by (nonlinear_arith)
        requires
            65536 <= a <= 196608,
            sw >= 1,
    ;
    assert(0 * sw + 65536 == 65536);
    assert(qm * sw <= 131072 ==> a * sw == 65536 * sw + qm * sw * sw) by (nonlinear_arith)
        requires
            qm * sw <= 131072 ==> a == qm * sw + 65536,
    ;
    lemma_div_between(a * sw, 65536);
}

/// Only the chroma planes of LOQ0 have their step width multiplied: by so many 64ths, rounded
/// down. All step widths lie between 1 and 32767.
pub proof fn law_plane_step(sw: int, plane: int, loq_is_zero: bool, multiplier: int)
    requires
        plane >= 0,
        multiplier >= 0,
    ensures
        ({
            let s = dequant::loq_step(sw, plane, loq_is_zero, multiplier);
            &&& 1 <= s <= 32767
            &&& (plane == 0 || !loq_is_zero || multiplier == 64) && 1 <= sw <= 32767 ==> s == sw
            &&& plane > 0 && loq_is_zero && 1 < s < 32767 ==> 64 * s <= sw * multiplier < 64 * s
                + 64
            &&& plane > 0 && loq_is_zero && s == 1 ==> sw * multiplier < 128
            &&& plane > 0 && loq_is_zero && s == 32767 ==> sw * multiplier >= 64 * 32767
        }),
{
    lemma_div_between(sw * multiplier, 64);
    if multiplier == 64 {
        assert(sw * multiplier == 64 * sw);
    }
}

/// The temporal modifier lowers the step widths of one kind of TU only: those that are coded on
/// top of the temporal buffer, at LOQ0, in a frame that does not refresh it.
pub proof fn law_temporal_modifier_applies(
    sw: int,
    matrix: Seq<u8>,
    temporal_enabled: bool,
    loq_is_zero: bool,
    temporal_refresh: bool,
    modifier: int,
    other: int,
    offset: int,
    const_mode: bool,
    logs: Seq<u16>,
)
    ensures
        ({
            let t = dequant::table_of(
                sw,
                matrix,
                temporal_enabled,
                loq_is_zero,
                temporal_refresh,
                modifier,
                offset,
                const_mode,
                logs,
            );
            let u = dequant::table_of(
                sw,
                matrix,
                temporal_enabled,
                loq_is_zero,
                temporal_refresh,
                other,
                offset,
                const_mode,
                logs,
            );
            &&& t.len() == 2
            &&& t[1] == u[1]
            &&& !(loq_is_zero && temporal_enabled && !temporal_refresh) ==> t[0] == t[1]
            &&& loq_is_zero && temporal_enabled && !temporal_refresh ==> t[0] == dequant::table_of(
                dequant::temporal_step(modifier, dequant::limit_step(sw)),
                matrix,
                false,
                loq_is_zero,
                temporal_refresh,
                modifier,
                offset,
                const_mode,
                logs,
            )[1]
        }),
{
}

/// Without an offset, a layer is dequantized with its deadzone alone, and the step widths of
/// layers stay within the limits.
pub proof fn law_layer_without_offset(qm: int, sw: int, const_mode: bool, logs: Seq<u16>)
    requires
        1 <= sw <= 32767,
    ensures
        ({
            let layer = dequant::layer_of(qm, sw, -1, const_mode, logs);
            let other = dequant::layer_of(qm, sw, -1, !const_mode, logs);
            &&& 1 <= layer.step_width <= 32767
            &&& layer == other
            &&& -32768 <= layer.deadzone <= 32767 && layer.deadzone != -32768 ==> layer.offset
                + layer.deadzone == 0
            &&& 1 <= sw <= 16 ==> 2 * layer.deadzone <= sw <= 2 * layer.deadzone + 1
        }),
{
    let layer_sw = dequant::matrix_step(qm, sw);
    let s = dequant::limit_step(
        layer_sw + dequant::step_modifier(layer_sw, 0, -1, const_mode, logs),
    );
    let d = dequant::deadzone_of(sw, s);
    assert(1 <= s <= 32767);
    if sw > 16 && s <= 12249 {
        let v = (65536 - (dequant::KA * s + dequant::KB) / 2) * s;
        assert(-0x1000_0000_0000 <= v <= 0x1000_0000_0000) by (nonlinear_arith)
            requires
                1 <= s <= 12249,
                v == (65536 - (39 * s + 126484) / 2) * s,
        ;
    }
}

/// What is added to the step width of a layer without an offset: the square of the step width
/// times a factor, which falls with the logarithm of the step width, in 2147483648ths and rounded
/// down. With an offset nothing is added in the constant mode.
pub proof fn law_step_modifier(sw: int, actual: int, offset: int, const_mode: bool, logs: Seq<u16>)
    requires
        1 <= sw <= 32767,
    ensures
        ({
            let m = dequant::step_modifier(sw, actual, offset, const_mode, logs);
            let factor = (99614 * 4096 - 5242 * logs[sw]) / 4096;
            &&& offset == -1 ==> 0x8000_0000 * m <= factor * sw * sw < 0x8000_0000 * m
                + 0x8000_0000
            &&& 4096 * factor <= 99614 * 4096 - 5242 * logs[sw] < 4096 * factor + 4096
            &&& offset != -1 && const_mode ==> m == 0
            &&& offset != -1 && !const_mode && actual >= 0 ==> 32768 * m <= actual * sw < 32768 * m
                + 32768
            &&& offset != -1 && !const_mode && actual < 0 ==> 32768 * m - 32768 < actual * sw
                <= 32768 * m
        }),
{
    let factor = (99614 * 4096 - 5242 * logs[sw]) / 4096;
    lemma_div_between(factor * sw * sw, 0x8000_0000);
    lemma_div_between(actual * sw, 32768);
    lemma_div_between(-(actual * sw), 32768);
    assert(actual >= 0 ==> actual * sw >= 0) by (nonlinear_arith)
        requires
            sw >= 1,
    ;
    assert(actual < 0 ==> actual * sw < 0) by (nonlinear_arith)
        requires
            sw >= 1,
    ;
}

/// The deadzone of a layer: half of the master step width where that is small. Otherwise it is
/// the step width of the layer times a factor in 65536ths, rounded down, which falls by half of 39
/// for each unit of the step width. Beyond a step width of 12249 it is the largest number of 31
/// bits.
pub proof fn law_deadzone_width(master: int, sw: int)
    requires
        1 <= sw <= 32767,
    ensures
        ({
            let d = dequant::deadzone_of(master, sw);
            let factor = 65536 - (39 * sw + 126484) / 2;
            &&& master <= 16 ==> 2 * d <= master <= 2 * d + 1
            &&& master > 16 && sw <= 12249 ==> 65536 * d <= factor * sw < 65536 * d + 65536
            &&& master > 16 && sw > 12249 ==> d == 0x7fff_ffff
        }),
{
    lemma_div_between((65536 - (39 * sw + 126484) / 2) * sw, 65536);
}

} // verus!
