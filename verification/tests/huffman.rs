use lcevc_enc::bitstream::BitWriter;
use lcevc_enc::entropy::huffman::{
    build_code_lengths, length_bits_for_range, BitReader, HuffmanDecoderTable, HuffmanTable,
};

#[test]
fn header_and_roundtrip() {
    // Build a frequency distribution and round-trip a symbol stream.
    let mut freqs = [0u64; 256];
    let symbols = [
        10u8, 200, 10, 5, 200, 10, 10, 5, 5, 5, 1, 1, 1, 1, 1, 0, 0, 0, 7, 7, 7, 7, 7, 7, 7, 7,
    ];
    for &s in &symbols {
        freqs[s as usize] += 1;
    }
    let table = HuffmanTable::from_frequencies(&freqs);
    assert!(!table.empty);
    assert!(table.single_symbol.is_none());

    let mut w = BitWriter::new();
    table.write_header(&mut w);
    for &s in &symbols {
        table.write_symbol(&mut w, s);
    }
    let bytes = w.finish();

    let mut r = BitReader::new(&bytes);
    let dt = HuffmanDecoderTable::parse(&mut r).unwrap();
    assert_eq!(dt.min_len, table.min_len);
    assert_eq!(dt.max_len, table.max_len);
    for &s in &symbols {
        assert_eq!(dt.decode(&mut r), Some(s));
    }
}

#[test]
fn single_symbol_case() {
    let mut freqs = [0u64; 256];
    freqs[42] = 100;
    let table = HuffmanTable::from_frequencies(&freqs);
    assert_eq!(table.single_symbol, Some(42));
    assert_eq!(table.min_len, 0);
    assert_eq!(table.max_len, 0);

    let mut w = BitWriter::new();
    table.write_header(&mut w);
    for _ in 0..10 {
        table.write_symbol(&mut w, 42);
    }
    let bytes = w.finish();
    assert_eq!(bytes.len(), 3); // header only: 5+5+8 bits -> 3 bytes

    let mut r = BitReader::new(&bytes);
    let dt = HuffmanDecoderTable::parse(&mut r).unwrap();
    assert_eq!(dt.single_symbol, Some(42));
    for _ in 0..10 {
        assert_eq!(dt.decode(&mut r), Some(42));
    }
}

#[test]
fn empty_table_case() {
    let freqs = [0u64; 256];
    let table = HuffmanTable::from_frequencies(&freqs);
    assert!(table.empty);
    let mut w = BitWriter::new();
    table.write_header(&mut w);
    let bytes = w.finish();
    assert_eq!(bytes.len(), 2); // 5+5 bits -> 2 bytes
    let mut r = BitReader::new(&bytes);
    let dt = HuffmanDecoderTable::parse(&mut r).unwrap();
    assert!(dt.empty);
}

#[test]
fn many_symbols_presence_bitmap() {
    // Use 40 symbols to force the presence-bitmap path.
    let mut freqs = [0u64; 256];
    for i in 0..40u8 {
        freqs[i as usize] = (40 - i as u64) * 3;
    }
    let table = HuffmanTable::from_frequencies(&freqs);
    let mut w = BitWriter::new();
    table.write_header(&mut w);
    for i in 0..200u8 {
        table.write_symbol(&mut w, i % 40);
    }
    let bytes = w.finish();
    let mut r = BitReader::new(&bytes);
    let dt = HuffmanDecoderTable::parse(&mut r).unwrap();
    for i in 0..200u8 {
        assert_eq!(dt.decode(&mut r), Some(i % 40));
    }
}

#[test]
fn length_bits_table() {
    assert_eq!(length_bits_for_range(0), 0);
    assert_eq!(length_bits_for_range(1), 1);
    assert_eq!(length_bits_for_range(2), 2);
    assert_eq!(length_bits_for_range(3), 2);
    assert_eq!(length_bits_for_range(4), 3);
    assert_eq!(length_bits_for_range(7), 3);
    assert_eq!(length_bits_for_range(8), 4);
    assert_eq!(length_bits_for_range(15), 4);
    assert_eq!(length_bits_for_range(16), 5);
    assert_eq!(length_bits_for_range(31), 5);
}

#[test]
fn frequent_symbols_have_short_codes() {
    let mut freqs = [0u64; 256];
    freqs[1] = 1;
    freqs[2] = 1;
    freqs[3] = 2;
    freqs[4] = 4;
    let (lens, min_len, max_len) = build_code_lengths(&freqs).unwrap();
    assert_eq!(lens[4], 1);
    assert_eq!(lens[3], 2);
    assert_eq!(lens[1], 3);
    assert_eq!(lens[2], 3);
    assert_eq!((min_len, max_len), (1, 3));
    assert!(build_code_lengths(&[0u64; 256]).is_none());
}

#[test]
fn a_reader_ends_with_its_data() {
    let data = [0b1010_0000u8];
    let mut r = BitReader::new(&data);
    assert_eq!(r.read_bits(3), Some(0b101));
    assert_eq!(r.bits_remaining(), 5);
    assert_eq!(r.read_bits(6), None);
}
