//! Dequantization: step width derivation, deadzone and offsets, used by the encoder's
//! reconstruction loop, its quantizer and the decoder.
//!
//! The derivation uses natural logarithms in U12.4-style fixed point. They come from a
//! [`LogTable`], which holds them as integers.
use crate::frame;
use vstd::prelude::*;

verus! {

pub const QMIN_STEP_WIDTH: i32 = 1;

pub const QMAX_STEP_WIDTH: i32 = 32767;

pub const KA: i32 = 39;

pub const KB: i32 = 126484;

pub const KC: i32 = 5242;

pub const KD: i32 = 99614;

const SW_DIVISOR_NO_DQ_OFFSET: i64 = 2147483648;

const SW_DIVISOR: i64 = 32768;

const QM_SCALE_MAX: i64 = 196608;

const DEADZONE_SW_LIMIT: i64 = 12249;

const FP_ONE_OVER_255: u64 = 257;

/// Default step widths: the encoder signals both; when not signalled the decoder uses QMAX for
/// LOQ1.
pub const DEFAULT_STEP_WIDTH_L1: i32 = 32767;

#[derive(Clone, Copy, PartialEq, Eq, Debug, Structural)]
pub enum TemporalSignal {
    Inter,
    Intra,
}

/// 0 for inter, 1 for intra.
pub open spec fn signal_index(s: TemporalSignal) -> int {
    match s {
        TemporalSignal::Inter => 0,
        TemporalSignal::Intra => 1,
    }
}

impl TemporalSignal {
    /// 0 for inter, 1 for intra.
    pub fn index(self) -> (i: usize)
        ensures
            i == signal_index(self),
    {
        match self {
            TemporalSignal::Inter => 0,
            TemporalSignal::Intra => 1,
        }
    }
}

/// Natural logarithms of the step widths 0 to 32767: entry `w` is `4096 * ln(w)` rounded down
/// (entry 0 is not used).
pub struct LogTable {
    entries: Vec<u16>,
}

impl View for LogTable {
    type V = Seq<u16>;

    closed spec fn view(&self) -> Seq<u16> {
        self.entries@
    }
}

impl LogTable {
    #[verifier::type_invariant]
    spec fn complete(self) -> bool {
        self.entries@.len() == 32768
    }

    /// A table with the given entries; there must be 32768 of them.
    pub fn from_entries(entries: Vec<u16>) -> (t: Option<LogTable>)
        ensures
            t is Some <==> entries@.len() == 32768,
            t is Some ==> t->0@ == entries@,
    {
        if entries.len() == 32768 {
            Some(LogTable { entries })
        } else {
            None
        }
    }

    /// `4096 * ln(step_width)` rounded down.
    pub fn ln(&self, step_width: i32) -> (v: u16)
        requires
            0 <= step_width <= 32767,
        ensures
            v == self@[step_width as int],
            self@.len() == 32768,
    {
        proof {
            use_type_invariant(self);
        }
        self.entries[step_width as usize]
    }
}

/// Default quantization matrices.
pub open spec fn default_matrix(dds: bool, scaling_1d: bool, loq: int) -> Seq<u8> {
    if !dds {
        if loq == 0 {
            if scaling_1d {
                seq![0u8, 2, 0, 0]
            } else {
                seq![32u8, 3, 0, 32]
            }
        } else {
            seq![0u8, 3, 0, 32]
        }
    } else if loq == 0 {
        if scaling_1d {
            seq![13u8, 26, 19, 32, 52, 1, 78, 9, 13, 26, 19, 32, 150, 91, 91, 19]
        } else {
            seq![13u8, 26, 19, 32, 52, 1, 78, 9, 26, 72, 0, 3, 150, 91, 91, 19]
        }
    } else {
        seq![0u8, 0, 0, 2, 52, 1, 78, 9, 26, 72, 0, 3, 150, 91, 91, 19]
    }
}

/// Default quantization matrices.
pub fn default_quant_matrix(transform_dds: bool, scaling_1d: bool, loq: usize) -> (m: Vec<u8>)
    requires
        loq < 2,
    ensures
        m@ == default_matrix(transform_dds, scaling_1d, loq as int),
        m@.len() == (if transform_dds {
            16nat
        } else {
            4nat
        }),
{
    let m: Vec<u8> = if !transform_dds {
        if loq == 0 {
            if scaling_1d {
                vec![0, 2, 0, 0]
            } else {
                vec![32, 3, 0, 32]
            }
        } else {
            vec![0, 3, 0, 32]
        }
    } else if loq == 0 {
        if scaling_1d {
            vec![13, 26, 19, 32, 52, 1, 78, 9, 13, 26, 19, 32, 150, 91, 91, 19]
        } else {
            vec![13, 26, 19, 32, 52, 1, 78, 9, 26, 72, 0, 3, 150, 91, 91, 19]
        }
    } else {
        vec![0, 0, 0, 2, 52, 1, 78, 9, 26, 72, 0, 3, 150, 91, 91, 19]
    };
    assert(m@ =~= default_matrix(transform_dds, scaling_1d, loq as int));
    m
}

/// A step width within the limits.
pub open spec fn limit_step(v: int) -> int {
    frame::clamp(v, 1, 32767)
}

/// The temporal step width: lowered by `modifier / 255`, at most by half.
pub open spec fn temporal_step(modifier: int, sw: int) -> int {
    let m = if modifier * 257 < 32768 {
        modifier * 257
    } else {
        32768
    };
    limit_step(((65536 - m) * sw) / 65536)
}

/// Modified temporal step width.
pub fn fixed_point_temporal_sw(temporal_sw_modifier: u32, temporal_sw_unmodified: i32) -> (sw: i32)
    requires
        temporal_sw_unmodified >= 0,
    ensures
        sw == temporal_step(temporal_sw_modifier as int, temporal_sw_unmodified as int),
        1 <= sw <= 32767,
{
    let scaled: u64 = temporal_sw_modifier as u64 * FP_ONE_OVER_255;
    let modifier: u64 = if scaled < 32768 {
        scaled
    } else {
        32768
    };
    let multiplier: u64 = 65536 - modifier;
    proof {
        assert(0 <= multiplier * temporal_sw_unmodified <= 65536 * 0x7fff_ffff) by (nonlinear_arith)
            requires
                0 <= multiplier <= 65536,
                0 <= temporal_sw_unmodified <= 0x7fff_ffff,
        ;
    }
    let floored: u64 = (multiplier * temporal_sw_unmodified as u64) / 65536;
    frame::clamp_i64(floored as i64, 1, 32767) as i32
}

/// Division that rounds towards zero.
pub open spec fn truncated_div(a: int, d: int) -> int {
    if a >= 0 {
        a / d
    } else {
        -((-a) / d)
    }
}

/// The low 32 bits of a number, as a signed number.
pub open spec fn wrap32(v: int) -> int {
    (v + 0x8000_0000) % 0x1_0000_0000 - 0x8000_0000
}

/// The dequantization offset of a layer, before the deadzone.
pub open spec fn actual_offset(
    layer_sw: int,
    master_sw: int,
    offset: int,
    const_mode: bool,
    logs: Seq<u16>,
) -> int {
    if offset == -1 || offset == 0 {
        0
    } else {
        let log_layer = -((KC * logs[layer_sw]) / 4096);
        let log_master = (KC * logs[master_sw]) / 4096;
        let shifted = offset * (if const_mode {
            512int
        } else {
            2048int
        });
        wrap32(((log_layer + shifted + log_master) * layer_sw) / 65536)
    }
}

/// What is added to the step width of a layer.
pub open spec fn step_modifier(
    layer_sw: int,
    actual: int,
    offset: int,
    const_mode: bool,
    logs: Seq<u16>,
) -> int {
    if offset == -1 {
        let log_by_layer = (KD * 4096 - KC * logs[layer_sw]) / 4096;
        (log_by_layer * layer_sw * layer_sw) / 0x8000_0000
    } else if const_mode {
        0
    } else {
        truncated_div(actual * layer_sw, 32768)
    }
}

/// The deadzone of a layer.
pub open spec fn deadzone_of(master_sw: int, layer_sw: int) -> int {
    if master_sw <= 16 {
        master_sw / 2
    } else if layer_sw > 12249 {
        0x7fff_ffff
    } else {
        ((65536 - (KA * layer_sw + KB) / 2) * layer_sw) / 65536
    }
}

/// The step width of a layer before its modifier: the master step width scaled by the entry of
/// the quantization matrix.
pub open spec fn matrix_step(qm: int, master_sw: int) -> int {
    limit_step((frame::clamp(qm * master_sw + 65536, 0, 196608) * master_sw) / 65536)
}

/// Per-layer dequant parameters for one temporal signal and one plane/LOQ.
#[derive(Clone, Copy, Debug)]
pub struct DequantLayer {
    /// Final step width (after modifier, clamped) used in `d = q * step_width + offset`.
    pub step_width: i16,
    /// Applied offset (deadzone), signed.
    pub offset: i16,
    /// The deadzone width used for this layer.
    pub deadzone: i32,
}

/// The parameters of a layer.
pub open spec fn layer_of(
    qm: int,
    master_sw: int,
    offset: int,
    const_mode: bool,
    logs: Seq<u16>,
) -> DequantLayer {
    let layer_sw = matrix_step(qm, master_sw);
    let actual = actual_offset(layer_sw, master_sw, offset, const_mode, logs);
    let sw = limit_step(layer_sw + step_modifier(layer_sw, actual, offset, const_mode, logs));
    let deadzone = deadzone_of(master_sw, sw);
    DequantLayer {
        step_width: sw as i16,
        offset: (if offset == -1 || !const_mode {
            frame::wrap16(-deadzone)
        } else {
            frame::clamp16(actual - deadzone)
        }) as i16,
        deadzone: deadzone as i32,
    }
}

/// The master step width for a temporal signal.
pub open spec fn master_step(
    loq_sw: int,
    inter: bool,
    temporal_enabled: bool,
    loq_is_zero: bool,
    temporal_refresh: bool,
    modifier: int,
) -> int {
    let sw = limit_step(loq_sw);
    if inter && loq_is_zero && temporal_enabled && !temporal_refresh {
        temporal_step(modifier, sw)
    } else {
        sw
    }
}

fn calculate_dequant_offset_actual(
    layer_sw: i32,
    master_sw: i32,
    dequant_offset: i32,
    const_offset_mode: bool,
    logs: &LogTable,
) -> (r: i32)
    requires
        1 <= layer_sw <= 32767,
        1 <= master_sw <= 32767,
    ensures
        r == actual_offset(
            layer_sw as int,
            master_sw as int,
            dequant_offset as int,
            const_offset_mode,
            logs@,
        ),
{
    if dequant_offset == -1 || dequant_offset == 0 {
        return 0;
    }
    let log_layer: i64 = -((KC as i64 * logs.ln(layer_sw) as i64) / 4096);
    let log_master: i64 = (KC as i64 * logs.ln(master_sw) as i64) / 4096;
    let shifted: i64 = if const_offset_mode {
        dequant_offset as i64 * 512
    } else {
        dequant_offset as i64 * 2048
    };
    let sum: i64 = log_layer + shifted + log_master;
    proof {
        assert(-0x1000_0000_0000 * 32767 <= sum * layer_sw <= 0x1000_0000_0000 * 32767) by (nonlinear_arith)
            requires
                -0x1000_0000_0000 <= sum <= 0x1000_0000_0000,
                1 <= layer_sw <= 32767,
        ;
    }
    let q: i64 = frame::floor_div(sum * layer_sw as i64, 65536);
    wrap_i32(q)
}

/// The low 32 bits, as a signed number.
pub fn wrap_i32(v: i64) -> (r: i32)
    requires
        -0x1000_0000_0000_0000 <= v <= 0x1000_0000_0000_0000,
    ensures
        r == wrap32(v as int),
{
    let q: i64 = frame::floor_div(v + 0x8000_0000, 0x1_0000_0000);
    (v - q * 0x1_0000_0000) as i32
}

proof fn lemma_log_by_layer(log: int)
    requires
        0 <= log <= 65535,
    ensures
        0 <= (KD * 4096 - KC * log) / 4096 <= 99614,
{
}

fn calculate_step_width_modifier(
    layer_sw: i32,
    dequant_offset_actual: i32,
    dequant_offset: i32,
    const_offset_mode: bool,
    logs: &LogTable,
) -> (r: i32)
    requires
        1 <= layer_sw <= 32767,
    ensures
        r == step_modifier(
            layer_sw as int,
            dequant_offset_actual as int,
            dequant_offset as int,
            const_offset_mode,
            logs@,
        ),
        -0x7fff_0000 <= r <= 0x7fff_0000,
{
    if dequant_offset == -1 {
        let log: i64 = logs.ln(layer_sw) as i64;
        let log_by_layer: i64 = (KD as i64 * 4096 - KC as i64 * log) / 4096;
        proof {
            lemma_log_by_layer(log as int);
            let p = log_by_layer * layer_sw;
            assert(0 <= p <= 99614 * 32767) by (nonlinear_arith)
                requires
                    p == log_by_layer * layer_sw,
                    0 <= log_by_layer <= 99614,
                    1 <= layer_sw <= 32767,
            ;
            assert(0 <= p * layer_sw <= 99614 * 32767 * 32767) by (nonlinear_arith)
                requires
                    0 <= p <= 99614 * 32767,
                    1 <= layer_sw <= 32767,
            ;
        }
        let pow: i64 = log_by_layer * layer_sw as i64 * layer_sw as i64;
        return (pow / SW_DIVISOR_NO_DQ_OFFSET) as i32;
    }
    if const_offset_mode {
        return 0;
    }
    proof {
        assert(-0x8000_0000 * 32767 <= dequant_offset_actual * layer_sw <= 0x7fff_ffff * 32767)
            by (nonlinear_arith)
            requires
                -0x8000_0000 <= dequant_offset_actual <= 0x7fff_ffff,
                1 <= layer_sw <= 32767,
        ;
    }
    let product: i64 = dequant_offset_actual as i64 * layer_sw as i64;
    if product >= 0 {
        (product / SW_DIVISOR) as i32
    } else {
        let q: i64 = (-product) / SW_DIVISOR;
        (-q) as i32
    }
}

fn calculate_deadzone_width(master_sw: i32, layer_sw: i32) -> (r: i32)
    requires
        1 <= master_sw <= 32767,
        1 <= layer_sw <= 32767,
    ensures
        r == deadzone_of(master_sw as int, layer_sw as int),
        -0x10_0000 <= r,
{
    if master_sw <= 16 {
        return master_sw / 2;
    }
    if layer_sw as i64 > DEADZONE_SW_LIMIT {
        return i32::MAX;
    }
    assert(KA * layer_sw == 39 * layer_sw) by (nonlinear_arith)
        requires
            KA == 39,
    ;
    let scaled: i64 = 65536 - (KA as i64 * layer_sw as i64 + KB as i64) / 2;
    proof {
        assert(-0x5_0000 * 12249 <= scaled * layer_sw <= 65536 * 12249) by (nonlinear_arith)
            requires
                -0x5_0000 <= scaled <= 65536,
                1 <= layer_sw <= 12249,
        ;
    }
    frame::floor_div(scaled * layer_sw as i64, 65536) as i32
}

/// The parameters of a layer.
fn compute_layer(
    qm: u8,
    master_sw: i32,
    dequant_offset: i32,
    dequant_offset_mode: bool,
    logs: &LogTable,
) -> (layer: DequantLayer)
    requires
        1 <= master_sw <= 32767,
    ensures
        layer == layer_of(
            qm as int,
            master_sw as int,
            dequant_offset as int,
            dequant_offset_mode,
            logs@,
        ),
        1 <= layer.step_width,
{
    proof {
        assert(0 <= qm * master_sw <= 255 * 32767) by (nonlinear_arith)
            requires
                0 <= qm <= 255,
                1 <= master_sw <= 32767,
        ;
    }
    let scale: i64 = frame::clamp_i64(qm as i64 * master_sw as i64 + 65536, 0, QM_SCALE_MAX);
    proof {
        assert(0 <= scale * master_sw <= 196608 * 32767) by (nonlinear_arith)
            requires
                0 <= scale <= 196608,
                1 <= master_sw <= 32767,
        ;
    }
    let layer_sw: i32 = frame::clamp_i64((scale * master_sw as i64) / 65536, 1, 32767) as i32;
    let actual: i32 = calculate_dequant_offset_actual(
        layer_sw,
        master_sw,
        dequant_offset,
        dequant_offset_mode,
        logs,
    );
    let modifier: i32 = calculate_step_width_modifier(
        layer_sw,
        actual,
        dequant_offset,
        dequant_offset_mode,
        logs,
    );
    let sw: i32 = frame::clamp_i64(layer_sw as i64 + modifier as i64, 1, 32767) as i32;
    let deadzone: i32 = calculate_deadzone_width(master_sw, sw);
    let offset: i16 = if dequant_offset == -1 || !dequant_offset_mode {
        frame::wrap_i16(-(deadzone as i64))
    } else {
        frame::clamp_i16(actual as i64 - deadzone as i64)
    };
    DequantLayer { step_width: sw as i16, offset, deadzone }
}

/// Full dequant table for a plane/LOQ: [temporal][layer].
#[derive(Clone, Debug)]
pub struct DequantTable {
    pub layers: Vec<Vec<DequantLayer>>,
}

/// The layers of a table, for inter and for intra.
pub open spec fn table_view(t: DequantTable) -> Seq<Seq<DequantLayer>> {
    Seq::new(t.layers@.len(), |i: int| t.layers@[i]@)
}

/// The layers for one temporal signal.
pub open spec fn table_row(
    loq_sw: int,
    matrix: Seq<u8>,
    inter: bool,
    temporal_enabled: bool,
    loq_is_zero: bool,
    temporal_refresh: bool,
    modifier: int,
    offset: int,
    const_mode: bool,
    logs: Seq<u16>,
) -> Seq<DequantLayer> {
    let master = master_step(
        loq_sw,
        inter,
        temporal_enabled,
        loq_is_zero,
        temporal_refresh,
        modifier,
    );
    Seq::new(matrix.len(), |l: int| layer_of(matrix[l] as int, master, offset, const_mode, logs))
}

/// The table of a plane/LOQ.
pub open spec fn table_of(
    loq_sw: int,
    matrix: Seq<u8>,
    temporal_enabled: bool,
    loq_is_zero: bool,
    temporal_refresh: bool,
    modifier: int,
    offset: int,
    const_mode: bool,
    logs: Seq<u16>,
) -> Seq<Seq<DequantLayer>> {
    seq![
        table_row(
            loq_sw,
            matrix,
            true,
            temporal_enabled,
            loq_is_zero,
            temporal_refresh,
            modifier,
            offset,
            const_mode,
            logs,
        ),
        table_row(
            loq_sw,
            matrix,
            false,
            temporal_enabled,
            loq_is_zero,
            temporal_refresh,
            modifier,
            offset,
            const_mode,
            logs,
        ),
    ]
}

/// Step widths that can be divided by, for all of `n` layers.
pub open spec fn table_ok(t: Seq<Seq<DequantLayer>>, n: int) -> bool {
    &&& t.len() == 2
    &&& t[0].len() == n
    &&& t[1].len() == n
    &&& forall|l: int| 0 <= l < n ==> #[trigger] t[0][l].step_width >= 1
    &&& forall|l: int| 0 <= l < n ==> #[trigger] t[1][l].step_width >= 1
}

impl DequantTable {
    /// Compute the dequant table. `quant_matrix` is the per-LOQ matrix.
    pub fn compute(
        loq_sw: i32,
        quant_matrix: &[u8],
        temporal_enabled: bool,
        loq_is_zero: bool,
        temporal_refresh: bool,
        temporal_step_width_modifier: u8,
        dequant_offset: i32,
        dequant_offset_mode: bool,
        logs: &LogTable,
    ) -> (t: DequantTable)
        ensures
            table_view(t) == table_of(
                loq_sw as int,
                quant_matrix@,
                temporal_enabled,
                loq_is_zero,
                temporal_refresh,
                temporal_step_width_modifier as int,
                dequant_offset as int,
                dequant_offset_mode,
                logs@,
            ),
            table_ok(table_view(t), quant_matrix@.len() as int),
    {
        let base: i32 = frame::clamp_i64(loq_sw as i64, 1, 32767) as i32;
        let inter_sw: i32 = if loq_is_zero && temporal_enabled && !temporal_refresh {
            fixed_point_temporal_sw(temporal_step_width_modifier as u32, base)
        } else {
            base
        };
        let inter = compute_row(quant_matrix, inter_sw, dequant_offset, dequant_offset_mode, logs);
        let intra = compute_row(quant_matrix, base, dequant_offset, dequant_offset_mode, logs);
        let ghost row0 = inter@;
        let ghost row1 = intra@;
        let mut layers: Vec<Vec<DequantLayer>> = Vec::new();
        layers.push(inter);
        layers.push(intra);
        let t = DequantTable { layers };
        proof {
            assert(table_view(t) =~= seq![row0, row1]);
        }
        t
    }
}

/// The layers for one master step width.
fn compute_row(
    quant_matrix: &[u8],
    master_sw: i32,
    dequant_offset: i32,
    dequant_offset_mode: bool,
    logs: &LogTable,
) -> (row: Vec<DequantLayer>)
    requires
        1 <= master_sw <= 32767,
    ensures
        row@ == Seq::new(
            quant_matrix@.len(),
            |l: int|
                layer_of(
                    quant_matrix@[l] as int,
                    master_sw as int,
                    dequant_offset as int,
                    dequant_offset_mode,
                    logs@,
                ),
        ),
        forall|l: int| 0 <= l < row@.len() ==> #[trigger] row@[l].step_width >= 1,
{
    let ghost all = Seq::new(
        quant_matrix@.len(),
        |l: int|
            layer_of(
                quant_matrix@[l] as int,
                master_sw as int,
                dequant_offset as int,
                dequant_offset_mode,
                logs@,
            ),
    );
    let mut row: Vec<DequantLayer> = Vec::new();
    let mut l: usize = 0;
    while l < quant_matrix.len()
        invariant
            l <= quant_matrix@.len(),
            1 <= master_sw <= 32767,
            row@.len() == l,
            all == Seq::new(
                quant_matrix@.len(),
                |l: int|
                    layer_of(
                        quant_matrix@[l] as int,
                        master_sw as int,
                        dequant_offset as int,
                        dequant_offset_mode,
                        logs@,
                    ),
            ),
            forall|k: int| 0 <= k < l ==> #[trigger] row@[k] == all[k] && row@[k].step_width >= 1,
        decreases quant_matrix@.len() - l,
    {
        row.push(
            compute_layer(quant_matrix[l], master_sw, dequant_offset, dequant_offset_mode, logs),
        );
        l = l + 1;
    }
    assert(row@ =~= all);
    row
}

/// The LOQ step width of a plane: chroma at LOQ0 has a multiplier.
pub open spec fn loq_step(step_width: int, plane: int, loq_is_zero: bool, multiplier: int) -> int {
    if plane > 0 && loq_is_zero {
        limit_step((step_width * multiplier) / 64)
    } else {
        limit_step(step_width)
    }
}

/// Compute the LOQ step width for a plane.
pub fn loq_step_width(
    step_width: i32,
    plane: usize,
    loq_is_zero: bool,
    chroma_multiplier: u8,
) -> (sw: i32)
    ensures
        sw == loq_step(step_width as int, plane as int, loq_is_zero, chroma_multiplier as int),
        1 <= sw <= 32767,
{
    if plane > 0 && loq_is_zero {
        proof {
            assert(-0x8000_0000 * 255 <= step_width * chroma_multiplier <= 0x7fff_ffff * 255)
                by (nonlinear_arith)
                requires
                    -0x8000_0000 <= step_width <= 0x7fff_ffff,
                    0 <= chroma_multiplier <= 255,
            ;
        }
        let scaled: i64 = frame::floor_div(step_width as i64 * chroma_multiplier as i64, 64);
        frame::clamp_i64(scaled, 1, 32767) as i32
    } else {
        frame::clamp_i64(step_width as i64, 1, 32767) as i32
    }
}

} // verus!
