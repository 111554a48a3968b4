use lcevc_enc::dequant::{
    default_quant_matrix, fixed_point_temporal_sw, loq_step_width, DequantTable, LogTable,
};

fn logs() -> LogTable {
    let entries: Vec<u16> = (0..32768u32)
        .map(|w| if w == 0 { 0 } else { (4096.0 * (w as f64).ln()).floor() as u16 })
        .collect();
    LogTable::from_entries(entries).unwrap()
}

#[test]
fn temporal_sw_modifier() {
    // modifier 48 -> 48*257 = 12336, multiplier = 53200,
    // 53200 * 1000 >> 16 = 811 -> clamped [1, 32767].
    let sw = fixed_point_temporal_sw(48, 1000);
    assert_eq!(sw, 811);
    // Modifier 0 -> unchanged.
    assert_eq!(fixed_point_temporal_sw(0, 1000), 1000);
}

#[test]
fn dequant_defaults() {
    // LOQ0, plane 0, 4:2:0, DDS 2D default matrix, step 256, no offset.
    let qm = default_quant_matrix(true, false, 0);
    let table = DequantTable::compute(256, &qm, false, true, false, 48, -1, false, &logs());
    let layer = &table.layers[0][0];
    assert_eq!(layer.step_width, 271);
    // Offset must be -deadzone.
    assert_eq!(layer.offset, -(layer.deadzone as i16));
    assert_eq!(layer.deadzone, -13);
    assert_eq!(layer.offset, 13);
}

#[test]
fn chroma_step_width_multiplier() {
    assert_eq!(loq_step_width(256, 1, true, 64), 256);
    assert_eq!(loq_step_width(256, 1, true, 32), 128);
    assert_eq!(loq_step_width(256, 0, true, 32), 256);
}

#[test]
fn a_log_table_has_all_step_widths() {
    assert!(LogTable::from_entries(vec![0; 100]).is_none());
    assert_eq!(logs().ln(1), 0);
    // ln(100) = 4.605170...: 4 * 4096 + 2478.
    assert_eq!(logs().ln(100), 4 * 4096 + 2478);
}

#[test]
fn modified_step_width_stays_in_range() {
    assert_eq!(fixed_point_temporal_sw(255, 1), 1);
    assert_eq!(fixed_point_temporal_sw(0, 40000), 32767);
}
