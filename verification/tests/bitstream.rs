use lcevc_enc::bitstream::{multibyte_groups, write_multibyte, BitWriter};
use lcevc_enc::config::multibyte_bytes;

#[test]
fn bits_msb_first() {
    let mut w = BitWriter::new();
    w.write_bits(0b1010, 4);
    w.write_bits(0b110011, 6);
    let bytes = w.finish();
    assert_eq!(bytes, vec![0b10101100, 0b11000000]);
}

#[test]
fn byte_alignment() {
    let mut w = BitWriter::new();
    w.write_bits(0b101, 3);
    w.byte_alignment();
    let bytes = w.finish();
    assert_eq!(bytes, vec![0b10100000]);
}

#[test]
fn multibyte_roundtrip() {
    for v in [0u64, 1, 127, 128, 16383, 16384, 1 << 21, u32::MAX as u64] {
        let mut w = BitWriter::new();
        write_multibyte(&mut w, v);
        let bytes = w.finish();
        let mut acc = 0u64;
        let mut nbytes = 0;
        for b in &bytes {
            acc = (acc << 7) | (b & 0x7F) as u64;
            nbytes += 1;
            if b & 0x80 == 0 {
                break;
            }
        }
        assert_eq!(acc, v, "value {v}");
        assert!(bytes[nbytes - 1] & 0x80 == 0);
    }
}

#[test]
fn writer_counts_and_aligns() {
    let mut w = BitWriter::new();
    assert_eq!(w.bit_count(), 0);
    assert!(w.is_aligned());
    w.write_bit(true);
    assert_eq!(w.bit_count(), 1);
    assert_eq!(w.byte_count(), 1);
    assert!(!w.is_aligned());
    w.byte_align_zero();
    assert!(w.is_aligned());
    w.write_byte(0xA5);
    w.write_u16(0x1234);
    assert_eq!(w.finish(), vec![0x80, 0xA5, 0x12, 0x34]);
}

#[test]
fn multibyte_values() {
    assert_eq!(multibyte_groups(0), vec![0]);
    assert_eq!(multibyte_groups(300), vec![0x82, 0x2C]);
    assert_eq!(multibyte_bytes(300), vec![0x82, 0x2C]);
    assert_eq!(multibyte_bytes(16384), vec![0x81, 0x80, 0x00]);
}
