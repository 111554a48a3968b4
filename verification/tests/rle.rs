use lcevc_enc::bitstream::BitWriter;
use lcevc_enc::entropy::huffman::{BitReader, HuffmanDecoderTable, HuffmanTable};
use lcevc_enc::entropy::rle::{
    decode_coefficient_chunk, decode_sizes, decode_temporal_chunk, rle_encode_events,
    write_coefficient_chunk, write_coefficient_chunk_rle_only, write_sizes, write_temporal_chunk,
    CoeffEvent, TemporalRun,
};

#[test]
fn debug_huffman_stream() {
    // Symbol sequence from the combined runs case.
    let seq = [
        (0usize, 202u8),
        (2, 255),
        (2, 127),
        (0, 188),
        (2, 129),
        (2, 128),
        (2, 0),
        (0, 201),
        (1, 192),
        (2, 134),
        (2, 141),
        (2, 32),
        (0, 57),
        (1, 63),
    ];
    let mut syms: [Vec<u8>; 3] = [Vec::new(), Vec::new(), Vec::new()];
    for (c, b) in &seq {
        syms[*c].push(*b);
    }
    let tables: [HuffmanTable; 3] = std::array::from_fn(|ctx| {
        let mut full = [0u64; 256];
        for &s in &syms[ctx] {
            full[s as usize] += 1;
        }
        HuffmanTable::from_frequencies(&full)
    });
    let mut w = BitWriter::new();
    for ctx in 0..3 {
        tables[ctx].write_header(&mut w);
    }
    for (c, b) in &seq {
        tables[*c].write_symbol(&mut w, *b);
    }
    let bytes = w.finish();
    println!("huffman bytes: {bytes:?}");
    let mut r = BitReader::new(&bytes);
    let dt = [
        HuffmanDecoderTable::parse(&mut r).unwrap(),
        HuffmanDecoderTable::parse(&mut r).unwrap(),
        HuffmanDecoderTable::parse(&mut r).unwrap(),
    ];
    let mut decoded = Vec::new();
    for (c, b) in &seq {
        let sym = dt[*c].decode(&mut r);
        let eb = syms[*c][0];
        println!("ctx {c}: expected {eb} got {sym:?}");
        assert_eq!(sym, Some(*b));
        decoded.push(sym);
    }
    assert_eq!(decoded.len(), seq.len());
}

#[test]
fn debug_size_deltas() {
    let deltas = [253i16, -214, 97, -98];
    let data = write_sizes(&deltas.iter().map(|&d| d as u16).collect::<Vec<_>>(), true);
    println!("size data: {data:?}");
    let decoded = decode_sizes(&data, deltas.len(), true).unwrap();
    println!("decoded: {decoded:?}");
    assert_eq!(decoded, deltas.to_vec());
}

#[test]
fn debug_combined_runs() {
    let events = vec![
        CoeffEvent { value: 5, zero_run: 16383 },
        CoeffEvent { value: -2, zero_run: 16384 },
        CoeffEvent { value: 100, zero_run: 100000 },
        CoeffEvent { value: -100, zero_run: 0 },
    ];
    let data = write_coefficient_chunk_rle_only(&events);
    println!("data: {data:?}");
    let decoded = decode_coefficient_chunk(&data, true, 10000000);
    println!("decoded: {decoded:?}");
    let (_, _, seq) = rle_encode_events(&events);
    println!("seq: {seq:?}");
    // The symbols are the bytes, in order.
    let bytes: Vec<u8> = seq.iter().map(|s| s.1).collect();
    assert_eq!(bytes, data);
    assert_eq!(decoded[0].value, 5);
    assert_eq!(decoded[0].zero_run, 16383);
}

#[test]
fn debug_large_runs() {
    for run in [127u32, 128, 16383, 16384, 20000, 100000, 1000000] {
        let events = vec![CoeffEvent { value: 5, zero_run: run }];
        let data = write_coefficient_chunk_rle_only(&events);
        let decoded = decode_coefficient_chunk(&data, true, 10000000);
        let ok = decoded.len() == 1 && decoded[0].value == 5 && decoded[0].zero_run == run;
        println!("run {run}: data={data:?} decoded={decoded:?} ok={ok}");
        assert!(ok, "run {run} failed");
    }
}

#[test]
fn coefficient_chunk_roundtrip_large_runs() {
    // Runs beyond 14 bits (3+ bytes) and leading-zero runs.
    let events = vec![
        CoeffEvent { value: 5, zero_run: 16383 },
        CoeffEvent { value: -2, zero_run: 16384 },
        CoeffEvent { value: 100, zero_run: 100000 },
        CoeffEvent { value: -100, zero_run: 0 },
    ];
    let total: usize = events.iter().map(|e| 1 + e.zero_run as usize).sum();
    let data = write_coefficient_chunk(&events);
    let decoded = decode_coefficient_chunk(&data, false, total);
    assert_eq!(decoded.len(), events.len());
    for (a, b) in events.iter().zip(decoded.iter()) {
        assert_eq!(a.value, b.value);
        assert_eq!(a.zero_run, b.zero_run);
    }
    let data2 = write_coefficient_chunk_rle_only(&events);
    let decoded2 = decode_coefficient_chunk(&data2, true, total);
    assert_eq!(decoded2.len(), events.len());
    for (a, b) in events.iter().zip(decoded2.iter()) {
        assert_eq!(a.value, b.value);
        assert_eq!(a.zero_run, b.zero_run);
    }
}

#[test]
fn coefficient_chunk_roundtrip() {
    // Note: the first event must be a value (possibly zero) followed by
    // its zero run.
    let events = vec![
        CoeffEvent { value: 5, zero_run: 3 },
        CoeffEvent { value: -2, zero_run: 0 },
        CoeffEvent { value: 100, zero_run: 1 },
        CoeffEvent { value: -100, zero_run: 10 },
    ];
    let data = write_coefficient_chunk(&events);
    let decoded = decode_coefficient_chunk(&data, false, 18);
    assert_eq!(decoded.len(), events.len());
    for (a, b) in events.iter().zip(decoded.iter()) {
        assert_eq!(a.value, b.value);
        assert_eq!(a.zero_run, b.zero_run);
    }
}

#[test]
fn coefficient_chunk_roundtrip_rle_only() {
    let events = vec![
        CoeffEvent { value: 5, zero_run: 3 },
        CoeffEvent { value: -2, zero_run: 0 },
        CoeffEvent { value: 100, zero_run: 1 },
        CoeffEvent { value: -100, zero_run: 10 },
    ];
    let data = write_coefficient_chunk_rle_only(&events);
    let decoded = decode_coefficient_chunk(&data, true, 18);
    assert_eq!(decoded.len(), events.len());
    for (a, b) in events.iter().zip(decoded.iter()) {
        assert_eq!(a.value, b.value);
        assert_eq!(a.zero_run, b.zero_run);
    }
}

#[test]
fn sizes_roundtrip_unsigned() {
    let sizes = [5u16, 127, 128, 129, 16383, 1, 1000];
    let data = write_sizes(&sizes, false);
    let decoded = decode_sizes(&data, sizes.len(), false).unwrap();
    for (a, b) in sizes.iter().zip(decoded.iter()) {
        assert_eq!(*a as i16, *b);
    }
}

#[test]
fn sizes_roundtrip_signed_deltas() {
    let deltas = [5i16, -5, 63, -64, 1000, -1000, 8191, -8192];
    let data = write_sizes(&deltas.iter().map(|&d| d as u16).collect::<Vec<_>>(), true);
    let decoded = decode_sizes(&data, deltas.len(), true).unwrap();
    for (a, b) in deltas.iter().zip(decoded.iter()) {
        assert_eq!(*a, *b);
    }
}

#[test]
fn debug_temporal_single_run() {
    let runs = vec![TemporalRun { signal: 0, count: 57600 }];
    let data = write_temporal_chunk(&runs);
    println!("temporal bytes: {data:?}");
    let decoded = decode_temporal_chunk(&data, 57600).unwrap();
    println!("decoded: {decoded:?}");
    assert_eq!(decoded.len(), runs.len());
    assert_eq!(decoded[0].signal, runs[0].signal);
    assert_eq!(decoded[0].count, runs[0].count);
}

#[test]
fn temporal_roundtrip() {
    let runs = vec![
        TemporalRun { signal: 0, count: 3 },
        TemporalRun { signal: 1, count: 2 },
        TemporalRun { signal: 0, count: 5 },
        TemporalRun { signal: 1, count: 1 },
    ];
    let data = write_temporal_chunk(&runs);
    let decoded = decode_temporal_chunk(&data, 11).unwrap();
    assert_eq!(decoded.len(), runs.len());
    for (a, b) in runs.iter().zip(decoded.iter()) {
        assert_eq!(a.signal, b.signal);
        assert_eq!(a.count, b.count);
    }
}

#[test]
fn empty_chunks() {
    assert_eq!(decode_coefficient_chunk(&[], true, 10).len(), 0);
    assert!(decode_sizes(&[], 3, false).is_none());
}

#[test]
fn small_values_have_one_byte() {
    // 2 * 3 + 64 = 70 without a run; the top bit announces a run.
    let data = write_coefficient_chunk_rle_only(&[CoeffEvent { value: 0, zero_run: 0 }]);
    assert_eq!(data.len(), 1);
    let with_run = write_coefficient_chunk_rle_only(&[CoeffEvent { value: 0, zero_run: 5 }]);
    assert_eq!(with_run, vec![data[0] | 0x80, 5]);
}
