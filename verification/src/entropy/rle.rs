//! RLE (run-length) symbol streams.
//!
//! ## Coefficient streams
//!
//! Three contexts/states exist: LSB, MSB and ZeroRun. Each byte belongs to the context it is
//! written in and is entropy-coded with that context's Huffman table.
//!
//! * LSB byte: `[run:1][data:6][msb:1]`. `msb` set means another (MSB) byte follows carrying
//!   the more significant bits; when `msb` is set bit 7 is part of the data (7 bits). `run`
//!   set means a zero-run count follows. LSB-only value: `data - 32` (range [-32, 31]).
//!   LSB+MSB value: `(((msb & 0x7f) << 8 | (lsb & 0xfe)) - 0x4000) >> 1`
//!   (range [-8192, 8191]).
//! * MSB byte: `[run:1][data:7]` (bits 7..14 of the value).
//! * ZeroRun byte: `[run:1][count:7]`, chunks written most-significant-first; `run` set means
//!   another (less significant) chunk follows.
//!
//! The first byte of a stream is always a residual in the LSB context.
//!
//! ## Size streams
//!
//! LSB/MSB bytes without the value bias and without runs: unsigned value: LSB
//! `[data:7][msb:1]`, MSB `[data:7]`; 7 or 14 bits. Signed (deltas): 7-bit values
//! sign-extended from bit 6; 14-bit values with the sign in bit 7 of the MSB byte.
//!
//! ## Temporal streams
//!
//! Two contexts (signal 0 and signal 1). The first byte after the tables is a raw byte whose
//! bit 0 gives the initial signal; then runs of a signal are encoded as counts (7-bit chunks,
//! most-significant-first, `run` bit = continuation), each run's count using the current
//! signal's table. The signal toggles after every run.
use crate::bitstream;
use crate::bitstream::BitWriter;
use crate::entropy::huffman;
use crate::entropy::huffman::{BitReader, CodeModel, HuffmanDecoderTable, HuffmanTable, MAX_SYMBOLS, TableModel};
use crate::entropy::tree;
use vstd::prelude::*;

verus! {

pub const LSB: usize = 0;

pub const MSB: usize = 1;

pub const RL: usize = 2;

/// One event in a coefficient stream: a (possibly zero) value followed by a run of zero
/// coefficients.
#[derive(Clone, Copy, Debug)]
pub struct CoeffEvent {
    pub value: i16,
    pub zero_run: u32,
}

/// The LSB byte of a value, and the MSB byte where one is needed. Values outside
/// [-8192, 8191] are taken modulo 2^14.
pub open spec fn value_bytes(v: int) -> (u8, Option<u8>) {
    if -32 <= v <= 31 {
        (((v + 32) * 2) as u8, None)
    } else {
        let c = (v + 8192) % 16384;
        (((c % 128) * 2 + 1) as u8, Some((c / 128) as u8))
    }
}

/// Encode a coefficient value into an LSB (and possibly MSB) byte.
/// Returns (lsb_byte, Option<msb_byte>).
fn encode_value_bytes(value: i16) -> (r: (u8, Option<u8>))
    ensures
        r == value_bytes(value as int),
{
    if -32 <= value && value <= 31 {
        (((value + 32) * 2) as u8, None)
    } else {
        // In [0, 2^14) after the bias; out-of-range values wrap.
        let mut c: i32 = value as i32 + 8192;
        if c < 0 {
            c = c + 32768;
        }
        c = c % 16384;
        (((c % 128) * 2 + 1) as u8, Some((c / 128) as u8))
    }
}

/// A byte with the run flag.
pub open spec fn flagged(b: u8, run: u32) -> u8 {
    if run > 0 {
        (b + 128) as u8
    } else {
        b
    }
}

/// Bytes of one context.
pub open spec fn in_context(ctx: usize, bytes: Seq<u8>) -> Seq<(usize, u8)> {
    Seq::new(bytes.len(), |i: int| (ctx, bytes[i]))
}

/// The bytes of a zero run; none where there is no run.
pub open spec fn run_symbols(run: u32) -> Seq<(usize, u8)> {
    if run > 0 {
        in_context(RL, bitstream::multibyte(run as nat))
    } else {
        Seq::empty()
    }
}

/// The (context, byte) sequence of one event.
pub open spec fn event_symbols(ev: CoeffEvent) -> Seq<(usize, u8)> {
    match value_bytes(ev.value as int) {
        (lsb, None) => seq![(LSB, flagged(lsb, ev.zero_run))] + run_symbols(ev.zero_run),
        (lsb, Some(msb)) => seq![(LSB, lsb), (MSB, flagged(msb, ev.zero_run))] + run_symbols(
            ev.zero_run,
        ),
    }
}

/// The (context, byte) sequence of a list of events.
pub open spec fn events_symbols(events: Seq<CoeffEvent>) -> Seq<(usize, u8)>
    decreases events.len(),
{
    if events.len() == 0 {
        Seq::empty()
    } else {
        events_symbols(events.drop_last()) + event_symbols(events.last())
    }
}

/// The bytes of one context, in order.
pub open spec fn context_bytes(seq: Seq<(usize, u8)>, ctx: usize) -> Seq<u8>
    decreases seq.len(),
{
    if seq.len() == 0 {
        Seq::empty()
    } else if seq.last().0 == ctx {
        context_bytes(seq.drop_last(), ctx).push(seq.last().1)
    } else {
        context_bytes(seq.drop_last(), ctx)
    }
}

/// All bytes, in order.
pub open spec fn all_bytes(seq: Seq<(usize, u8)>) -> Seq<u8> {
    Seq::new(seq.len(), |i: int| seq[i].1)
}

pub proof fn lemma_event_symbols_len(ev: CoeffEvent)
    ensures
        1 <= event_symbols(ev).len() <= 7,
        forall|i: int| 0 <= i < event_symbols(ev).len() ==> #[trigger] event_symbols(ev)[i].0 <= 2,
{
    bitstream::lemma_groups7_len(ev.zero_run as nat, true);
}

pub proof fn lemma_events_symbols_len(events: Seq<CoeffEvent>)
    ensures
        events.len() <= events_symbols(events).len() <= 7 * events.len(),
        forall|i: int|
            0 <= i < events_symbols(events).len() ==> #[trigger] events_symbols(events)[i].0 <= 2,
    decreases events.len(),
{
    if events.len() > 0 {
        lemma_events_symbols_len(events.drop_last());
        lemma_event_symbols_len(events.last());
        let a = events_symbols(events.drop_last());
        let b = event_symbols(events.last());
        assert forall|i: int| 0 <= i < events_symbols(events).len() implies #[trigger] events_symbols(
            events,
        )[i].0 <= 2 by {
            if i < a.len() {
                assert(events_symbols(events)[i] == a[i]);
            } else {
                assert(events_symbols(events)[i] == b[i - a.len()]);
            }
        }
    }
}

/// The per-context byte lists, their lengths and the interleaved sequence under construction.
struct Streams {
    lsb: Vec<u8>,
    msb: Vec<u8>,
    run: Vec<u8>,
    sequence: Vec<(usize, u8)>,
}

impl Streams {
    spec fn wf(&self) -> bool {
        &&& self.lsb@ == context_bytes(self.sequence@, LSB)
        &&& self.msb@ == context_bytes(self.sequence@, MSB)
        &&& self.run@ == context_bytes(self.sequence@, RL)
    }

    fn push(&mut self, ctx: usize, b: u8)
        requires
            old(self).wf(),
            ctx <= 2,
        ensures
            final(self).wf(),
            final(self).sequence@ == old(self).sequence@.push((ctx, b)),
    {
        self.sequence.push((ctx, b));
        proof {
            assert(self.sequence@.drop_last() =~= old(self).sequence@);
        }
        if ctx == LSB {
            self.lsb.push(b);
        } else if ctx == MSB {
            self.msb.push(b);
        } else {
            self.run.push(b);
        }
    }

    /// Append the zero-run byte sequence (most significant 7-bit chunk first).
    fn write_zero_run(&mut self, z: u32)
        requires
            old(self).wf(),
        ensures
            final(self).wf(),
            final(self).sequence@ == old(self).sequence@ + run_symbols(z),
    {
        let ghost start = self.sequence@;
        if z == 0 {
            assert(self.sequence@ =~= start + run_symbols(z));
            return;
        }
        let groups = bitstream::multibyte_groups(z as u64);
        let mut i: usize = 0;
        assert(self.sequence@ =~= start + run_symbols(z).subrange(0, 0));
        while i < groups.len()
            invariant
                i <= groups@.len(),
                self.wf(),
                z > 0,
                groups@ == bitstream::multibyte(z as nat),
                self.sequence@ == start + run_symbols(z).subrange(0, i as int),
            decreases groups@.len() - i,
        {
            self.push(RL, groups[i]);
            i = i + 1;
            assert(self.sequence@ =~= start + run_symbols(z).subrange(0, i as int));
        }
        assert(run_symbols(z).subrange(0, i as int) =~= run_symbols(z));
    }

    fn write_event(&mut self, ev: CoeffEvent)
        requires
            old(self).wf(),
        ensures
            final(self).wf(),
            final(self).sequence@ == old(self).sequence@ + event_symbols(ev),
    {
        let ghost start = self.sequence@;
        let z: u32 = ev.zero_run;
        let flag: u8 = if z > 0 {
            128
        } else {
            0
        };
        let (lsb, msb_opt) = encode_value_bytes(ev.value);
        match msb_opt {
            None => {
                // LSB-only: run flag in bit 7.
                self.push(LSB, lsb + flag);
            },
            Some(msb) => {
                // LSB with MSB following: bit 7 is data, run flag is on the MSB.
                self.push(LSB, lsb);
                self.push(MSB, msb + flag);
            },
        }
        self.write_zero_run(z);
        assert(self.sequence@ =~= start + event_symbols(ev));
    }
}

fn encode_streams(events: &[CoeffEvent]) -> (s: Streams)
    ensures
        s.wf(),
        s.sequence@ == events_symbols(events@),
{
    let mut s = Streams {
        lsb: Vec::new(),
        msb: Vec::new(),
        run: Vec::new(),
        sequence: Vec::new(),
    };
    let mut i: usize = 0;
    assert(s.sequence@ =~= events_symbols(events@.subrange(0, 0)));
    while i < events.len()
        invariant
            i <= events@.len(),
            s.wf(),
            s.sequence@ == events_symbols(events@.subrange(0, i as int)),
        decreases events@.len() - i,
    {
        s.write_event(events[i]);
        i = i + 1;
        assert(events@.subrange(0, i as int).drop_last() =~= events@.subrange(0, i - 1));
    }
    assert(events@.subrange(0, i as int) =~= events@);
    s
}

/// Generate the RLE byte stream for a sequence of coefficient events.
/// Returns per-context symbol lists with their lengths, and the interleaved
/// `(context, byte)` sequence in exactly the order the decoder consumes it.
pub fn rle_encode_events(events: &[CoeffEvent]) -> (r: (
    [Vec<u8>; 3],
    [u64; 3],
    Vec<(usize, u8)>,
))
    ensures
        r.2@ == events_symbols(events@),
        forall|ctx: int|
            0 <= ctx < 3 ==> #[trigger] r.0@[ctx]@ == context_bytes(r.2@, ctx as usize)
                && r.1@[ctx] == r.0@[ctx]@.len(),
{
    let s = encode_streams(events);
    let freqs: [u64; 3] = [s.lsb.len() as u64, s.msb.len() as u64, s.run.len() as u64];
    let symbols: [Vec<u8>; 3] = [s.lsb, s.msb, s.run];
    (symbols, freqs, s.sequence)
}

/// How often symbol `s` occurs.
pub open spec fn occurrences(bytes: Seq<u8>, s: int) -> nat
    decreases bytes.len(),
{
    if bytes.len() == 0 {
        0
    } else {
        occurrences(bytes.drop_last(), s) + (if bytes.last() == s {
            1nat
        } else {
            0nat
        })
    }
}

/// The frequency of every symbol.
pub open spec fn symbol_freqs(bytes: Seq<u8>) -> Seq<u64> {
    Seq::new(256, |s: int| occurrences(bytes, s) as u64)
}

proof fn lemma_freq_sum_update(freqs: Seq<u64>, b: int, n: int)
    requires
        0 <= b < freqs.len(),
        freqs[b] < u64::MAX,
        0 <= n <= freqs.len(),
    ensures
        tree::freq_sum(freqs.update(b, (freqs[b] + 1) as u64), n) == tree::freq_sum(freqs, n)
            + if b < n {
            1nat
        } else {
            0nat
        },
    decreases n,
{
    if n > 0 {
        lemma_freq_sum_update(freqs, b, n - 1);
    }
}

proof fn lemma_freq_sum_part(freqs: Seq<u64>, b: int, n: int)
    requires
        0 <= b < n,
    ensures
        freqs[b] <= tree::freq_sum(freqs, n),
    decreases n,
{
    if b < n - 1 {
        lemma_freq_sum_part(freqs, b, n - 1);
    }
}

proof fn lemma_freq_sum_zero(freqs: Seq<u64>, n: int)
    requires
        forall|s: int| 0 <= s < n ==> freqs[s] == 0,
    ensures
        tree::freq_sum(freqs, n) == 0,
    decreases n,
{
    if n > 0 {
        lemma_freq_sum_zero(freqs, n - 1);
    }
}

pub proof fn lemma_occurrences_bound(bytes: Seq<u8>, s: int)
    ensures
        occurrences(bytes, s) <= bytes.len(),
    decreases bytes.len(),
{
    if bytes.len() > 0 {
        lemma_occurrences_bound(bytes.drop_last(), s);
    }
}

/// The frequencies of all symbols together are the number of bytes.
pub proof fn lemma_symbol_freqs_sum(bytes: Seq<u8>)
    requires
        bytes.len() <= u64::MAX,
    ensures
        tree::freq_sum(symbol_freqs(bytes), 256) == bytes.len(),
    decreases bytes.len(),
{
    let freqs = symbol_freqs(bytes);
    if bytes.len() == 0 {
        lemma_freq_sum_zero(freqs, 256);
    } else {
        let before = symbol_freqs(bytes.drop_last());
        let b = bytes.last() as int;
        lemma_symbol_freqs_sum(bytes.drop_last());
        lemma_freq_sum_part(before, b, 256);
        lemma_freq_sum_update(before, b, 256);
        assert forall|s: int| 0 <= s < 256 implies freqs[s] == before.update(
            b,
            (before[b] + 1) as u64,
        )[s] by {
            lemma_occurrences_bound(bytes, s);
            lemma_occurrences_bound(bytes.drop_last(), s);
        }
        assert(freqs =~= before.update(b, (before[b] + 1) as u64));
    }
}

/// Count how often each symbol occurs.
fn count_symbols(bytes: &Vec<u8>) -> (full: [u64; MAX_SYMBOLS])
    ensures
        full@ == symbol_freqs(bytes@),
        tree::freq_sum(full@, 256) == bytes@.len(),
{
    let mut full: [u64; MAX_SYMBOLS] = [0u64; MAX_SYMBOLS];
    let mut i: usize = 0;
    proof {
        lemma_freq_sum_zero(full@, 256);
        assert(full@ =~= symbol_freqs(bytes@.subrange(0, 0)));
    }
    while i < bytes.len()
        invariant
            i <= bytes@.len(),
            full@ == symbol_freqs(bytes@.subrange(0, i as int)),
            tree::freq_sum(full@, 256) == i,
        decreases bytes@.len() - i,
    {
        let b: usize = bytes[i] as usize;
        proof {
            lemma_freq_sum_part(full@, b as int, 256);
            lemma_freq_sum_update(full@, b as int, 256);
        }
        let ghost before = full@;
        full[b] = full[b] + 1;
        i = i + 1;
        proof {
            assert(full@ =~= before.update(b as int, (before[b as int] + 1) as u64));
            let part = bytes@.subrange(0, i as int);
            assert(part.drop_last() =~= bytes@.subrange(0, i - 1));
            assert forall|s: int| 0 <= s < 256 implies full@[s] == symbol_freqs(part)[s] by {
                lemma_occurrences_bound(part, s);
                lemma_occurrences_bound(part.drop_last(), s);
            }
            assert(full@ =~= symbol_freqs(part));
        }
    }
    assert(bytes@.subrange(0, i as int) =~= bytes@);
    full
}

/// The table for symbols of the given frequencies.
pub open spec fn table_for(freqs: Seq<u64>) -> CodeModel {
    choose|c: CodeModel| huffman::is_table_for(c, freqs)
}

/// The table for the bytes of one context.
pub open spec fn context_table(seq: Seq<(usize, u8)>, ctx: usize) -> CodeModel {
    table_for(symbol_freqs(context_bytes(seq, ctx)))
}

/// The frequencies determine the table.
pub proof fn lemma_table_unique(c: CodeModel, freqs: Seq<u64>)
    requires
        huffman::is_table_for(c, freqs),
    ensures
        table_for(freqs) == c,
        huffman::is_table_for(table_for(freqs), freqs),
{
    let d = table_for(freqs);
    let n = tree::leaves(freqs, 256).len();
    if n >= 2 {
        let lens = tree::huffman_lengths(freqs);
        let a = choose|s: int| 0 <= s < 256 && #[trigger] lens[s] == c.min_len;
        let b = choose|s: int| 0 <= s < 256 && #[trigger] lens[s] == d.min_len;
        assert(lens[a] == c.min_len && lens[b] == d.min_len);
        let e = choose|s: int| 0 <= s < 256 && #[trigger] lens[s] == c.max_len;
        let f = choose|s: int| 0 <= s < 256 && #[trigger] lens[s] == d.max_len;
        assert(lens[e] == c.max_len && lens[f] == d.max_len);
        assert(c.code =~= d.code);
    }
}

/// The table for the bytes of one context.
fn build_table(bytes: &Vec<u8>) -> (t: HuffmanTable)
    ensures
        t@ == table_for(symbol_freqs(bytes@)),
        huffman::is_table_for(t@, symbol_freqs(bytes@)),
        huffman::header_ok(t@),
{
    let full = count_symbols(bytes);
    let n: usize = bytes.len();
    assert(n <= u64::MAX);
    let t = HuffmanTable::from_frequencies(&full);
    proof {
        lemma_table_unique(t@, symbol_freqs(bytes@));
    }
    t
}

/// The coded symbols from `i` on.
pub open spec fn stream_bits(tables: Seq<CodeModel>, seq: Seq<(usize, u8)>, i: int) -> Seq<bool>
    decreases seq.len() - i,
{
    if i < 0 || i >= seq.len() {
        Seq::empty()
    } else {
        huffman::symbol_bits(tables[seq[i].0 as int], seq[i].1) + stream_bits(tables, seq, i + 1)
    }
}

/// The tables of the three contexts.
pub open spec fn coeff_tables(seq: Seq<(usize, u8)>) -> Seq<CodeModel> {
    seq![context_table(seq, LSB), context_table(seq, MSB), context_table(seq, RL)]
}

/// The bits of a coefficient chunk: three table headers, and the symbols in decoder order.
pub open spec fn coefficient_bits(events: Seq<CoeffEvent>) -> Seq<bool> {
    let seq = events_symbols(events);
    let tables = coeff_tables(seq);
    huffman::header_bits(tables[0]) + huffman::header_bits(tables[1]) + huffman::header_bits(
        tables[2],
    ) + stream_bits(tables, seq, 0)
}

/// The chunk with Huffman tables.
pub open spec fn coefficient_chunk(events: Seq<CoeffEvent>) -> Seq<u8> {
    bitstream::pack(coefficient_bits(events))
}

/// The chunk without Huffman tables.
pub open spec fn rle_chunk(events: Seq<CoeffEvent>) -> Seq<u8> {
    all_bytes(events_symbols(events))
}

/// A byte of a context occurs in that context.
pub proof fn lemma_context_contains(seq: Seq<(usize, u8)>, i: int)
    requires
        0 <= i < seq.len(),
    ensures
        occurrences(context_bytes(seq, seq[i].0), seq[i].1 as int) > 0,
    decreases seq.len(),
{
    let ctx = seq[i].0;
    let d = seq.drop_last();
    if seq.last().0 == ctx {
        let c = context_bytes(seq, ctx);
        assert(c.drop_last() =~= context_bytes(d, ctx));
    }
    if i < seq.len() - 1 {
        lemma_context_contains(d, i);
        assert(d[i] == seq[i]);
    }
}

pub proof fn lemma_context_len(seq: Seq<(usize, u8)>, ctx: usize)
    ensures
        context_bytes(seq, ctx).len() <= seq.len(),
    decreases seq.len(),
{
    if seq.len() > 0 {
        lemma_context_len(seq.drop_last(), ctx);
    }
}

/// Every symbol of a sequence can be written with its context's table.
pub proof fn lemma_writable(seq: Seq<(usize, u8)>, i: int, t: CodeModel)
    requires
        0 <= i < seq.len(),
        seq.len() <= u64::MAX,
        huffman::is_table_for(t, symbol_freqs(context_bytes(seq, seq[i].0))),
    ensures
        t.single_symbol is Some ==> t.single_symbol == Some(seq[i].1),
        t.single_symbol is None ==> !t.empty,
        symbol_freqs(context_bytes(seq, seq[i].0))[seq[i].1 as int] > 0,
{
    lemma_context_contains(seq, i);
    let bytes = context_bytes(seq, seq[i].0);
    let freqs = symbol_freqs(bytes);
    let s = seq[i].1 as int;
    lemma_occurrences_bound(bytes, s);
    lemma_context_len(seq, seq[i].0);
    assert(freqs[s] == occurrences(bytes, s));
    tree::lemma_leaves_present(freqs, 256);
    if tree::leaves(freqs, 256).len() == 1 {
        tree::lemma_leaves_single(freqs, 256);
    }
}

/// Build per-context Huffman tables and write the full chunk payload (three table headers
/// followed by the entropy-coded byte stream, with the symbols interleaved in decoder order).
pub fn write_coefficient_chunk(events: &[CoeffEvent]) -> (out: Vec<u8>)
    requires
        events@.len() <= 0x1000_0000_0000,
    ensures
        out@ == coefficient_chunk(events@),
{
    proof {
        lemma_events_symbols_len(events@);
    }
    let s = encode_streams(events);
    let t0 = build_table(&s.lsb);
    let t1 = build_table(&s.msb);
    let t2 = build_table(&s.run);
    let ghost seq = s.sequence@;
    let ghost tables = coeff_tables(seq);
    let mut w = BitWriter::new();
    t0.write_header(&mut w);
    t1.write_header(&mut w);
    t2.write_header(&mut w);
    let mut i: usize = 0;
    assert(w@ + stream_bits(tables, seq, 0) =~= coefficient_bits(events@));
    while i < s.sequence.len()
        invariant
            i <= seq.len(),
            seq == s.sequence@,
            seq.len() <= 7 * 0x1000_0000_0000,
            forall|k: int| 0 <= k < seq.len() ==> #[trigger] seq[k].0 <= 2,
            tables == coeff_tables(seq),
            t0@ == tables[0],
            t1@ == tables[1],
            t2@ == tables[2],
            huffman::is_table_for(t0@, symbol_freqs(context_bytes(seq, LSB))),
            huffman::is_table_for(t1@, symbol_freqs(context_bytes(seq, MSB))),
            huffman::is_table_for(t2@, symbol_freqs(context_bytes(seq, RL))),
            w.wf(),
            w@.len() <= 15000 + 255 * i,
            w@ + stream_bits(tables, seq, i as int) == coefficient_bits(events@),
        decreases seq.len() - i,
    {
        let (ctx, b) = s.sequence[i];
        let ghost before = w@;
        proof {
            assert(seq[i as int].0 <= 2);
            lemma_writable(seq, i as int, tables[ctx as int]);
        }
        if ctx == LSB {
            t0.write_symbol(&mut w, b);
        } else if ctx == MSB {
            t1.write_symbol(&mut w, b);
        } else {
            t2.write_symbol(&mut w, b);
        }
        assert(w@ + stream_bits(tables, seq, i + 1) =~= before + stream_bits(
            tables,
            seq,
            i as int,
        ));
        i = i + 1;
    }
    assert(w@ =~= coefficient_bits(events@));
    w.finish()
}

/// Write an RLE-only chunk (no Huffman tables). The bytes are the raw interleaved RLE stream.
pub fn write_coefficient_chunk_rle_only(events: &[CoeffEvent]) -> (out: Vec<u8>)
    ensures
        out@ == rle_chunk(events@),
{
    let s = encode_streams(events);
    let mut out: Vec<u8> = Vec::new();
    let mut i: usize = 0;
    while i < s.sequence.len()
        invariant
            i <= s.sequence@.len(),
            out@.len() == i,
            forall|k: int| 0 <= k < i ==> out@[k] == #[trigger] s.sequence@[k].1,
        decreases s.sequence@.len() - i,
    {
        out.push(s.sequence[i].1);
        i = i + 1;
    }
    assert(out@ =~= rle_chunk(events@));
    out
}

/// Where a decoder takes its symbols from: plain bytes, or bits with one table per context.
pub enum Source {
    Bytes(Seq<u8>),
    Coded(Seq<bool>, Seq<TableModel>),
}

/// The size of a source, in its own units of position.
pub open spec fn source_len(src: Source) -> int {
    match src {
        Source::Bytes(data) => data.len() as int,
        Source::Coded(bits, _) => bits.len() as int,
    }
}

/// The next symbol of a context, and the position after it.
pub open spec fn next_symbol(src: Source, ctx: int, pos: int) -> (Option<u8>, int) {
    match src {
        Source::Bytes(data) => if pos < data.len() {
            (Some(data[pos]), pos + 1)
        } else {
            (None, pos)
        },
        Source::Coded(bits, tables) => huffman::decode_at(tables[ctx], bits, pos),
    }
}

proof fn lemma_walk_end(t: TableModel, bits: Seq<bool>, pos: int, code: int, len: int)
    ensures
        huffman::walk_code(t, bits, pos, code, len).1 >= pos,
        huffman::walk_code(t, bits, pos, code, len).0 is Some ==> pos < huffman::walk_code(
            t,
            bits,
            pos,
            code,
            len,
        ).1 <= bits.len(),
        pos <= bits.len() ==> huffman::walk_code(t, bits, pos, code, len).1 <= bits.len(),
    decreases bits.len() - pos,
{
    if pos < bits.len() {
        let next = (2 * code + (if bits[pos] {
            1int
        } else {
            0int
        })) % 0x1_0000_0000;
        lemma_walk_end(t, bits, pos + 1, next, len + 1);
    }
}

/// A symbol is found within the source, and no position is gone back to.
pub proof fn lemma_next_end(src: Source, ctx: int, pos: int)
    ensures
        next_symbol(src, ctx, pos).1 >= pos,
        pos <= source_len(src) ==> next_symbol(src, ctx, pos).1 <= source_len(src),
        next_symbol(src, ctx, pos).0 is Some && next_symbol(src, ctx, pos).1 > pos ==> next_symbol(
            src,
            ctx,
            pos,
        ).1 <= source_len(src),
{
    match src {
        Source::Bytes(data) => {},
        Source::Coded(bits, tables) => {
            lemma_walk_end(tables[ctx], bits, pos, 0, 0);
        },
    }
}

/// A count in 7-bit chunks of one context, with `acc` read so far. Nothing where the source
/// ends, or where a lone symbol with the continuation flag would go on for ever.
pub open spec fn read_count(src: Source, ctx: int, pos: int, acc: int) -> (Option<u32>, int)
    decreases source_len(src) - pos,
{
    let (sym, next) = next_symbol(src, ctx, pos);
    match sym {
        None => (None, next),
        Some(b) => {
            let sum = (acc * 128 + b as int % 128) % 0x1_0000_0000;
            if b < 128 {
                (Some(sum as u32), next)
            } else if next == pos {
                (None, next)
            } else {
                proof {
                    lemma_next_end(src, ctx, pos);
                }
                read_count(src, ctx, next, sum)
            }
        },
    }
}

/// The value and run flag of an event, and the position after them.
pub open spec fn read_value(src: Source, pos: int) -> (Option<(i16, bool)>, int) {
    let (lsb, p1) = next_symbol(src, LSB as int, pos);
    match lsb {
        None => (None, p1),
        Some(l) => if l % 2 == 1 {
            let (msb, p2) = next_symbol(src, MSB as int, p1);
            match msb {
                None => (None, p2),
                Some(m) => (
                    Some(((((m as int % 128) * 128 + l as int / 2) - 8192) as i16, m >= 128)),
                    p2,
                ),
            }
        } else {
            (Some(((l as int / 2 % 64 - 32) as i16, l >= 128)), p1)
        },
    }
}

/// The event at `pos`, and the position after it.
pub open spec fn read_event(src: Source, pos: int) -> (Option<CoeffEvent>, int) {
    let (head, p1) = read_value(src, pos);
    match head {
        None => (None, p1),
        Some((value, flag)) => if flag {
            let (run, p2) = read_count(src, RL as int, p1, 0);
            match run {
                None => (None, p2),
                Some(zero_run) => (Some(CoeffEvent { value, zero_run }), p2),
            }
        } else {
            (Some(CoeffEvent { value, zero_run: 0 }), p1)
        },
    }
}

/// The events from `pos` on until `total` positions are covered or the source ends.
pub open spec fn read_events(src: Source, pos: int, covered: int, total: int) -> Seq<CoeffEvent>
    decreases total - covered,
{
    let (ev, next) = read_event(src, pos);
    match ev {
        None => Seq::empty(),
        Some(e) => {
            let c = covered + 1 + e.zero_run;
            if c >= total {
                seq![e]
            } else {
                seq![e] + read_events(src, next, c, total)
            }
        },
    }
}

/// All events of a source from `pos` on. Where no position is to be covered, one symbol is
/// still read, and makes an event if it is one by itself.
pub open spec fn source_events(src: Source, pos: int, total: int) -> Seq<CoeffEvent> {
    if total == 0 {
        match next_symbol(src, LSB as int, pos).0 {
            Some(l) => if l % 2 == 0 && l < 128 {
                seq![CoeffEvent { value: (l as int / 2 % 64 - 32) as i16, zero_run: 0 }]
            } else {
                Seq::empty()
            },
            None => Seq::empty(),
        }
    } else {
        read_events(src, pos, 0, total)
    }
}

/// The events of a chunk that is to cover `total` positions.
pub open spec fn chunk_events(data: Seq<u8>, rle_only: bool, total: int) -> Seq<CoeffEvent> {
    if rle_only {
        source_events(Source::Bytes(data), 0, total)
    } else {
        let bits = bitstream::bytes_bits(data);
        let (t0, p1) = huffman::parse_table(bits, 0);
        let (t1, p2) = huffman::parse_table(bits, p1);
        let (t2, p3) = huffman::parse_table(bits, p2);
        match (t0, t1, t2) {
            (Some(a), Some(b), Some(c)) => source_events(
                Source::Coded(bits, seq![a, b, c]),
                p3,
                total,
            ),
            _ => Seq::empty(),
        }
    }
}

/// The symbols of a chunk under decoding.
struct SymbolReader<'a> {
    rle_only: bool,
    data: &'a [u8],
    byte_pos: usize,
    bits: BitReader<'a>,
    tables: Vec<HuffmanDecoderTable>,
}

impl<'a> SymbolReader<'a> {
    spec fn wf(&self) -> bool {
        &&& self.byte_pos <= self.data@.len()
        &&& self.bits.wf()
    }

    /// There is a table for each of the first `n` contexts, where tables are used.
    spec fn has_contexts(&self, n: int) -> bool {
        self.rle_only || self.tables@.len() >= n
    }

    spec fn source(&self) -> Source {
        if self.rle_only {
            Source::Bytes(self.data@)
        } else {
            Source::Coded(
                self.bits.bits(),
                Seq::new(self.tables@.len(), |i: int| self.tables@[i]@),
            )
        }
    }

    spec fn pos(&self) -> int {
        if self.rle_only {
            self.byte_pos as int
        } else {
            self.bits.pos()
        }
    }

    fn next(&mut self, ctx: usize) -> (sym: Option<u8>)
        requires
            old(self).wf(),
            old(self).has_contexts(ctx + 1),
        ensures
            final(self).wf(),
            final(self).source() == old(self).source(),
            forall|n: int| old(self).has_contexts(n) ==> final(self).has_contexts(n),
            (sym, final(self).pos()) == next_symbol(old(self).source(), ctx as int, old(self).pos()),
    {
        if self.rle_only {
            if self.byte_pos >= self.data.len() {
                return None;
            }
            let b: u8 = self.data[self.byte_pos];
            self.byte_pos = self.byte_pos + 1;
            Some(b)
        } else {
            self.tables[ctx].decode(&mut self.bits)
        }
    }

    /// Whether a symbol of the context was read without moving on.
    fn stuck(&self, ctx: usize) -> (r: bool)
        requires
            self.wf(),
            self.has_contexts(ctx + 1),
        ensures
            r == (!self.rle_only && self.tables@[ctx as int].single_symbol is Some),
    {
        !self.rle_only && self.tables[ctx].single_symbol.is_some()
    }

    fn next_count(&mut self, ctx: usize) -> (count: Option<u32>)
        requires
            old(self).wf(),
            old(self).has_contexts(ctx + 1),
        ensures
            final(self).wf(),
            final(self).source() == old(self).source(),
            forall|n: int| old(self).has_contexts(n) ==> final(self).has_contexts(n),
            (count, final(self).pos()) == read_count(
                old(self).source(),
                ctx as int,
                old(self).pos(),
                0,
            ),
    {
        let ghost src = self.source();
        let ghost start = self.pos();
        let mut acc: u32 = 0;
        loop
            invariant
                self.wf(),
                self.has_contexts(ctx + 1),
                forall|n: int| old(self).has_contexts(n) ==> self.has_contexts(n),
                self.source() == src,
                src == old(self).source(),
                start == old(self).pos(),
                read_count(src, ctx as int, start, 0) == read_count(
                    src,
                    ctx as int,
                    self.pos(),
                    acc as int,
                ),
            decreases source_len(src) - self.pos(),
        {
            let ghost here = self.pos();
            let ghost before = acc;
            proof {
                lemma_next_end(src, ctx as int, here);
                lemma_next_moves(src, ctx as int, here);
            }
            match self.next(ctx) {
                None => {
                    return None;
                },
                Some(b) => {
                    acc = ((acc as u64 * 128 + (b % 128) as u64) % 0x1_0000_0000) as u32;
                    if b < 128 {
                        return Some(acc);
                    }
                    if self.stuck(ctx) {
                        return None;
                    }
                },
            }
        }
    }

    fn next_event(&mut self) -> (ev: Option<CoeffEvent>)
        requires
            old(self).wf(),
            old(self).has_contexts(3),
        ensures
            final(self).wf(),
            final(self).has_contexts(3),
            final(self).source() == old(self).source(),
            (ev, final(self).pos()) == read_event(old(self).source(), old(self).pos()),
    {
        let l: u8 = match self.next(LSB) {
            Some(l) => l,
            None => {
                return None;
            },
        };
        let value: i16;
        let flag: bool;
        if l % 2 == 1 {
            let m: u8 = match self.next(MSB) {
                Some(m) => m,
                None => {
                    return None;
                },
            };
            value = (m % 128) as i16 * 128 + (l / 2) as i16 - 8192;
            flag = m >= 128;
        } else {
            value = (l / 2 % 64) as i16 - 32;
            flag = l >= 128;
        }
        if flag {
            match self.next_count(RL) {
                Some(zero_run) => Some(CoeffEvent { value, zero_run }),
                None => None,
            }
        } else {
            Some(CoeffEvent { value, zero_run: 0 })
        }
    }

    fn events(&mut self, total: usize) -> (events: Vec<CoeffEvent>)
        requires
            old(self).wf(),
            old(self).has_contexts(3),
        ensures
            events@ == source_events(old(self).source(), old(self).pos(), total as int),
    {
        let ghost src = self.source();
        let ghost start = self.pos();
        let mut events: Vec<CoeffEvent> = Vec::new();
        if total == 0 {
            if let Some(l) = self.next(LSB) {
                if l % 2 == 0 && l < 128 {
                    events.push(CoeffEvent { value: (l / 2 % 64) as i16 - 32, zero_run: 0 });
                }
            }
            assert(events@ =~= source_events(src, start, 0));
            return events;
        }
        let mut covered: u128 = 0;
        loop
            invariant
                self.wf(),
                self.has_contexts(3),
                self.source() == src,
                covered < total,
                events@ + read_events(src, self.pos(), covered as int, total as int)
                    == source_events(src, start, total as int),
                src == old(self).source(),
                start == old(self).pos(),
            decreases total - covered,
        {
            let ghost before = events@;
            match self.next_event() {
                None => {
                    assert(events@ =~= source_events(src, start, total as int));
                    return events;
                },
                Some(ev) => {
                    events.push(ev);
                    covered = covered + 1 + ev.zero_run as u128;
                    if covered >= total as u128 {
                        assert(events@ =~= before + seq![ev]);
                        return events;
                    }
                    assert(events@ + read_events(src, self.pos(), covered as int, total as int)
                        =~= before + (seq![ev] + read_events(
                        src,
                        self.pos(),
                        covered as int,
                        total as int,
                    )));
                },
            }
        }
    }
}

/// A found symbol leaves the position unchanged exactly where the context has a lone symbol.
proof fn lemma_next_moves(src: Source, ctx: int, pos: int)
    ensures
        next_symbol(src, ctx, pos).0 is Some ==> (next_symbol(src, ctx, pos).1 == pos <==> (
        src matches Source::Coded(_, tables) && tables[ctx].single_symbol is Some)),
{
    match src {
        Source::Bytes(data) => {},
        Source::Coded(bits, tables) => {
            lemma_walk_end(tables[ctx], bits, pos, 0, 0);
        },
    }
}

/// Decode a coefficient chunk back into (value, zero_run) events.
/// Decoding stops at end of data (partial trailing events are dropped), or once
/// `total_positions` are covered.
pub fn decode_coefficient_chunk(data: &[u8], rle_only: bool, total_positions: usize) -> (events: Vec<
    CoeffEvent,
>)
    ensures
        events@ == chunk_events(data@, rle_only, total_positions as int),
{
    let mut bits = BitReader::new(data);
    let mut tables: Vec<HuffmanDecoderTable> = Vec::new();
    if !rle_only {
        let t0 = HuffmanDecoderTable::parse(&mut bits);
        let t1 = HuffmanDecoderTable::parse(&mut bits);
        let t2 = HuffmanDecoderTable::parse(&mut bits);
        match (t0, t1, t2) {
            (Some(a), Some(b), Some(c)) => {
                tables.push(a);
                tables.push(b);
                tables.push(c);
                assert(Seq::new(tables@.len(), |i: int| tables@[i]@) =~= seq![a@, b@, c@]);
            },
            _ => {
                return Vec::new();
            },
        }
    }
    let mut r = SymbolReader { rle_only, data, byte_pos: 0, bits, tables };
    r.events(total_positions)
}

/// The (context, byte) sequence of one size: seven bits in the LSB byte, and where more are
/// needed seven in the MSB byte. A signed size is a two's complement number, with a copy of
/// its sign in bit 7 of the MSB byte.
pub open spec fn size_symbols(size: u16, signed_delta: bool) -> Seq<(usize, u8)> {
    let v = if signed_delta && size >= 32768 {
        size - 65536
    } else {
        size as int
    };
    let short = if signed_delta {
        -64 <= v <= 63
    } else {
        v < 128
    };
    let low = v % 128;
    let high = (v / 128) % 128;
    if short {
        seq![(LSB, (low * 2) as u8)]
    } else {
        seq![
            (LSB, (low * 2 + 1) as u8),
            (
                MSB,
                (high + (if signed_delta && v < 0 {
                    128int
                } else {
                    0int
                })) as u8,
            ),
        ]
    }
}

/// The (context, byte) sequence of a list of sizes.
pub open spec fn sizes_symbols(sizes: Seq<u16>, signed_delta: bool) -> Seq<(usize, u8)>
    decreases sizes.len(),
{
    if sizes.len() == 0 {
        Seq::empty()
    } else {
        sizes_symbols(sizes.drop_last(), signed_delta) + size_symbols(sizes.last(), signed_delta)
    }
}

/// The tables of the two contexts of a size stream.
pub open spec fn size_tables(seq: Seq<(usize, u8)>) -> Seq<CodeModel> {
    seq![context_table(seq, LSB), context_table(seq, MSB)]
}

/// The bits of a size stream: two table headers, and the symbols in decoder order.
pub open spec fn sizes_bits(sizes: Seq<u16>, signed_delta: bool) -> Seq<bool> {
    let seq = sizes_symbols(sizes, signed_delta);
    let tables = size_tables(seq);
    huffman::header_bits(tables[0]) + huffman::header_bits(tables[1]) + stream_bits(tables, seq, 0)
}

/// A size stream.
pub open spec fn sizes_chunk(sizes: Seq<u16>, signed_delta: bool) -> Seq<u8> {
    bitstream::pack(sizes_bits(sizes, signed_delta))
}

pub proof fn lemma_sizes_symbols_len(sizes: Seq<u16>, signed_delta: bool)
    ensures
        sizes.len() <= sizes_symbols(sizes, signed_delta).len() <= 2 * sizes.len(),
        forall|i: int|
            0 <= i < sizes_symbols(sizes, signed_delta).len() ==> #[trigger] sizes_symbols(
                sizes,
                signed_delta,
            )[i].0 <= 1,
    decreases sizes.len(),
{
    if sizes.len() > 0 {
        lemma_sizes_symbols_len(sizes.drop_last(), signed_delta);
        let a = sizes_symbols(sizes.drop_last(), signed_delta);
        let b = size_symbols(sizes.last(), signed_delta);
        assert forall|i: int| 0 <= i < a.len() + b.len() implies #[trigger] sizes_symbols(
            sizes,
            signed_delta,
        )[i].0 <= 1 by {
            if i < a.len() {
                assert(sizes_symbols(sizes, signed_delta)[i] == a[i]);
            } else {
                assert(sizes_symbols(sizes, signed_delta)[i] == b[i - a.len()]);
            }
        }
    }
}

proof fn lemma_shifted_size(v: int)
    ensures
        (v + 65536) % 128 == v % 128,
        ((v + 65536) / 128) % 128 == (v / 128) % 128,
{
    assert((v + 65536) / 128 == v / 128 + 512);
}

/// The LSB byte of a size, and the MSB byte where one is needed.
fn size_bytes(size: u16, signed_delta: bool) -> (r: (u8, Option<u8>))
    ensures
        size_symbols(size, signed_delta) == (match r {
            (lsb, None) => seq![(LSB, lsb)],
            (lsb, Some(msb)) => seq![(LSB, lsb), (MSB, msb)],
        }),
{
    let value: i32 = if signed_delta && size >= 32768 {
        size as i32 - 65536
    } else {
        size as i32
    };
    // A multiple of 2^14 above the value, so that both divisions are of nonnegative numbers.
    let shifted: i32 = value + 65536;
    proof {
        lemma_shifted_size(value as int);
    }
    let low: u8 = (shifted % 128) as u8;
    let high: u8 = ((shifted / 128) % 128) as u8;
    let short: bool = if signed_delta {
        -64 <= value && value <= 63
    } else {
        value < 128
    };
    if short {
        (low * 2, None)
    } else if signed_delta && value < 0 {
        (low * 2 + 1, Some(high + 128))
    } else {
        (low * 2 + 1, Some(high))
    }
}

/// Append the symbols of one size.
fn encode_size_symbols(s: &mut Streams, size: u16, signed_delta: bool)
    requires
        old(s).wf(),
    ensures
        final(s).wf(),
        final(s).sequence@ == old(s).sequence@ + size_symbols(size, signed_delta),
{
    let ghost start = s.sequence@;
    let (lsb, msb_opt) = size_bytes(size, signed_delta);
    s.push(LSB, lsb);
    match msb_opt {
        Some(msb) => {
            s.push(MSB, msb);
        },
        None => {},
    }
    assert(s.sequence@ =~= start + size_symbols(size, signed_delta));
}

/// Encode sizes, returning the payload (2 headers + data). The LSB/MSB symbols are
/// interleaved per size in decoder order.
pub fn write_sizes(sizes: &[u16], signed_delta: bool) -> (out: Vec<u8>)
    requires
        sizes@.len() <= 0x1000_0000_0000,
    ensures
        out@ == sizes_chunk(sizes@, signed_delta),
{
    proof {
        lemma_sizes_symbols_len(sizes@, signed_delta);
    }
    let mut s = Streams {
        lsb: Vec::new(),
        msb: Vec::new(),
        run: Vec::new(),
        sequence: Vec::new(),
    };
    let mut k: usize = 0;
    assert(s.sequence@ =~= sizes_symbols(sizes@.subrange(0, 0), signed_delta));
    while k < sizes.len()
        invariant
            k <= sizes@.len(),
            s.wf(),
            s.sequence@ == sizes_symbols(sizes@.subrange(0, k as int), signed_delta),
        decreases sizes@.len() - k,
    {
        encode_size_symbols(&mut s, sizes[k], signed_delta);
        k = k + 1;
        assert(sizes@.subrange(0, k as int).drop_last() =~= sizes@.subrange(0, k - 1));
    }
    assert(sizes@.subrange(0, k as int) =~= sizes@);
    let t0 = build_table(&s.lsb);
    let t1 = build_table(&s.msb);
    let ghost seq = s.sequence@;
    let ghost tables = size_tables(seq);
    let mut w = BitWriter::new();
    t0.write_header(&mut w);
    t1.write_header(&mut w);
    let mut i: usize = 0;
    assert(w@ + stream_bits(tables, seq, 0) =~= sizes_bits(sizes@, signed_delta));
    while i < s.sequence.len()
        invariant
            i <= seq.len(),
            seq == s.sequence@,
            seq.len() <= 2 * 0x1000_0000_0000,
            forall|k: int| 0 <= k < seq.len() ==> #[trigger] seq[k].0 <= 1,
            tables == size_tables(seq),
            t0@ == tables[0],
            t1@ == tables[1],
            huffman::is_table_for(t0@, symbol_freqs(context_bytes(seq, LSB))),
            huffman::is_table_for(t1@, symbol_freqs(context_bytes(seq, MSB))),
            w.wf(),
            w@.len() <= 10000 + 255 * i,
            w@ + stream_bits(tables, seq, i as int) == sizes_bits(sizes@, signed_delta),
        decreases seq.len() - i,
    {
        let (ctx, b) = s.sequence[i];
        let ghost before = w@;
        proof {
            assert(seq[i as int].0 <= 1);
            lemma_writable(seq, i as int, tables[ctx as int]);
        }
        if ctx == LSB {
            t0.write_symbol(&mut w, b);
        } else {
            t1.write_symbol(&mut w, b);
        }
        assert(w@ + stream_bits(tables, seq, i + 1) =~= before + stream_bits(
            tables,
            seq,
            i as int,
        ));
        i = i + 1;
    }
    assert(w@ =~= sizes_bits(sizes@, signed_delta));
    w.finish()
}

/// The size at `pos` of a stream, and the position after it.
pub open spec fn read_size(src: Source, pos: int, signed_delta: bool) -> (Option<i16>, int) {
    let (lsb, p1) = next_symbol(src, LSB as int, pos);
    match lsb {
        None => (None, p1),
        Some(l) => if l % 2 == 1 {
            let (msb, p2) = next_symbol(src, MSB as int, p1);
            match msb {
                None => (None, p2),
                Some(m) => {
                    let raw = m as int * 128 + l as int / 2;
                    (
                        Some(
                            (if signed_delta {
                                raw % 16384 - (if raw >= 16384 {
                                    16384int
                                } else {
                                    0int
                                })
                            } else {
                                raw
                            }) as i16,
                        ),
                        p2,
                    )
                },
            }
        } else {
            let raw = l as int / 2;
            (
                Some(
                    (if signed_delta && raw >= 64 {
                        raw - 128
                    } else {
                        raw
                    }) as i16,
                ),
                p1,
            )
        },
    }
}

/// The next `n` sizes of a stream from `pos` on.
pub open spec fn read_sizes(src: Source, pos: int, n: nat, signed_delta: bool) -> Option<Seq<i16>>
    decreases n,
{
    if n == 0 {
        Some(Seq::empty())
    } else {
        let (size, next) = read_size(src, pos, signed_delta);
        match size {
            None => None,
            Some(v) => match read_sizes(src, next, (n - 1) as nat, signed_delta) {
                None => None,
                Some(rest) => Some(seq![v] + rest),
            },
        }
    }
}

/// The first `n` sizes of a size stream.
pub open spec fn chunk_sizes(data: Seq<u8>, n: nat, signed_delta: bool) -> Option<Seq<i16>> {
    let bits = bitstream::bytes_bits(data);
    let (t0, p1) = huffman::parse_table(bits, 0);
    let (t1, p2) = huffman::parse_table(bits, p1);
    match (t0, t1) {
        (Some(a), Some(b)) => read_sizes(Source::Coded(bits, seq![a, b]), p2, n, signed_delta),
        _ => None,
    }
}

/// Decode a size stream into sizes.
pub fn decode_sizes(data: &[u8], num_sizes: usize, signed_delta: bool) -> (r: Option<Vec<i16>>)
    ensures
        match r {
            Some(v) => chunk_sizes(data@, num_sizes as nat, signed_delta) == Some(v@),
            None => chunk_sizes(data@, num_sizes as nat, signed_delta) is None,
        },
{
    let mut r = BitReader::new(data);
    let t_lsb = match HuffmanDecoderTable::parse(&mut r) {
        Some(t) => t,
        None => {
            return None;
        },
    };
    let t_msb = match HuffmanDecoderTable::parse(&mut r) {
        Some(t) => t,
        None => {
            return None;
        },
    };
    let ghost src = Source::Coded(r.bits(), seq![t_lsb@, t_msb@]);
    let ghost start = r.pos();
    let mut out: Vec<i16> = Vec::new();
    let mut left: usize = num_sizes;
    proof {
        match read_sizes(src, start, num_sizes as nat, signed_delta) {
            Some(rest) => {
                assert(out@ + rest =~= rest);
            },
            None => {},
        }
    }
    while left > 0
        invariant
            left <= num_sizes,
            r.wf(),
            src == Source::Coded(r.bits(), seq![t_lsb@, t_msb@]),
            chunk_sizes(data@, num_sizes as nat, signed_delta) == read_sizes(
                src,
                start,
                num_sizes as nat,
                signed_delta,
            ),
            match read_sizes(src, r.pos(), left as nat, signed_delta) {
                Some(rest) => read_sizes(src, start, num_sizes as nat, signed_delta) == Some(
                    out@ + rest,
                ),
                None => read_sizes(src, start, num_sizes as nat, signed_delta) is None,
            },
        decreases left,
    {
        let ghost before = out@;
        let ghost here = r.pos();
        let l: u8 = match t_lsb.decode(&mut r) {
            Some(l) => l,
            None => {
                return None;
            },
        };
        let value: i16;
        if l % 2 == 1 {
            let m: u8 = match t_msb.decode(&mut r) {
                Some(m) => m,
                None => {
                    return None;
                },
            };
            let raw: i32 = m as i32 * 128 + (l / 2) as i32;
            value =
            if signed_delta {
                if raw >= 16384 {
                    (raw % 16384 - 16384) as i16
                } else {
                    raw as i16
                }
            } else {
                raw as i16
            };
        } else {
            let raw: i16 = (l / 2) as i16;
            value =
            if signed_delta && raw >= 64 {
                raw - 128
            } else {
                raw
            };
        }
        out.push(value);
        left = left - 1;
        proof {
            assert(read_size(src, here, signed_delta) == (Some(value), r.pos()));
            match read_sizes(src, r.pos(), left as nat, signed_delta) {
                Some(rest) => {
                    assert(out@ + rest =~= before + (seq![value] + rest));
                },
                None => {},
            }
        }
    }
    proof {
        assert(out@ + Seq::<i16>::empty() =~= out@);
    }
    Some(out)
}

/// A run of temporal signal: (signal, count of TUs).
#[derive(Clone, Copy, Debug)]
pub struct TemporalRun {
    /// 0 = inter, 1 = intra.
    pub signal: u8,
    pub count: u32,
}

/// The (signal, byte) sequence of a list of runs: the count of each in the context of its
/// signal.
pub open spec fn runs_symbols(runs: Seq<TemporalRun>) -> Seq<(usize, u8)>
    decreases runs.len(),
{
    if runs.len() == 0 {
        Seq::empty()
    } else {
        runs_symbols(runs.drop_last()) + in_context(
            runs.last().signal as usize,
            bitstream::multibyte(runs.last().count as nat),
        )
    }
}

/// The bits of a temporal chunk: two table headers, the first signal as a raw byte, and the
/// counts.
pub open spec fn temporal_bits(runs: Seq<TemporalRun>) -> Seq<bool> {
    let seq = runs_symbols(runs);
    let tables = size_tables(seq);
    huffman::header_bits(tables[0]) + huffman::header_bits(tables[1]) + bitstream::bits_of(
        runs[0].signal as nat,
        8,
    ) + stream_bits(tables, seq, 0)
}

/// A temporal chunk.
pub open spec fn temporal_chunk(runs: Seq<TemporalRun>) -> Seq<u8> {
    bitstream::pack(temporal_bits(runs))
}

pub proof fn lemma_runs_symbols_len(runs: Seq<TemporalRun>)
    requires
        forall|i: int| 0 <= i < runs.len() ==> #[trigger] runs[i].signal <= 1,
    ensures
        runs.len() <= runs_symbols(runs).len() <= 5 * runs.len(),
        forall|i: int|
            0 <= i < runs_symbols(runs).len() ==> #[trigger] runs_symbols(runs)[i].0 <= 1,
    decreases runs.len(),
{
    if runs.len() > 0 {
        lemma_runs_symbols_len(runs.drop_last());
        bitstream::lemma_groups7_len(runs.last().count as nat, true);
        let a = runs_symbols(runs.drop_last());
        let b = in_context(
            runs.last().signal as usize,
            bitstream::multibyte(runs.last().count as nat),
        );
        assert forall|i: int| 0 <= i < a.len() + b.len() implies #[trigger] runs_symbols(
            runs,
        )[i].0 <= 1 by {
            if i < a.len() {
                assert(runs_symbols(runs)[i] == a[i]);
            } else {
                assert(runs_symbols(runs)[i] == b[i - a.len()]);
            }
        }
    }
}

/// Append the count bytes (most significant 7-bit chunk first, continuation bit set except on
/// the last).
fn write_count(s: &mut Streams, signal: u8, count: u32)
    requires
        old(s).wf(),
        signal <= 1,
    ensures
        final(s).wf(),
        final(s).sequence@ == old(s).sequence@ + in_context(
            signal as usize,
            bitstream::multibyte(count as nat),
        ),
{
    let ghost start = s.sequence@;
    let ghost all = in_context(signal as usize, bitstream::multibyte(count as nat));
    let groups = bitstream::multibyte_groups(count as u64);
    let mut i: usize = 0;
    assert(s.sequence@ =~= start + all.subrange(0, 0));
    while i < groups.len()
        invariant
            i <= groups@.len(),
            s.wf(),
            signal <= 1,
            groups@ == bitstream::multibyte(count as nat),
            all == in_context(signal as usize, groups@),
            s.sequence@ == start + all.subrange(0, i as int),
        decreases groups@.len() - i,
    {
        s.push(signal as usize, groups[i]);
        i = i + 1;
        assert(s.sequence@ =~= start + all.subrange(0, i as int));
    }
    assert(all.subrange(0, i as int) =~= all);
}

/// Write a temporal chunk: two table headers (signal 0, signal 1), the raw initial byte and
/// the run counts. The count bytes for a run use the table of the run's signal; a reader
/// expects the signals to alternate.
pub fn write_temporal_chunk(runs: &[TemporalRun]) -> (out: Vec<u8>)
    requires
        1 <= runs@.len() <= 0x1000_0000_0000,
        forall|i: int| 0 <= i < runs@.len() ==> #[trigger] runs@[i].signal <= 1,
    ensures
        out@ == temporal_chunk(runs@),
{
    proof {
        lemma_runs_symbols_len(runs@);
    }
    let mut s = Streams {
        lsb: Vec::new(),
        msb: Vec::new(),
        run: Vec::new(),
        sequence: Vec::new(),
    };
    let mut k: usize = 0;
    assert(s.sequence@ =~= runs_symbols(runs@.subrange(0, 0)));
    while k < runs.len()
        invariant
            k <= runs@.len(),
            forall|i: int| 0 <= i < runs@.len() ==> #[trigger] runs@[i].signal <= 1,
            s.wf(),
            s.sequence@ == runs_symbols(runs@.subrange(0, k as int)),
        decreases runs@.len() - k,
    {
        assert(runs@[k as int].signal <= 1);
        write_count(&mut s, runs[k].signal, runs[k].count);
        k = k + 1;
        assert(runs@.subrange(0, k as int).drop_last() =~= runs@.subrange(0, k - 1));
    }
    assert(runs@.subrange(0, k as int) =~= runs@);
    let t0 = build_table(&s.lsb);
    let t1 = build_table(&s.msb);
    let ghost seq = s.sequence@;
    let ghost tables = size_tables(seq);
    let mut w = BitWriter::new();
    t0.write_header(&mut w);
    t1.write_header(&mut w);
    proof {
        assert(runs@[0].signal <= 1);
        bitstream::lemma_bits_of_len(runs@[0].signal as nat, 8);
    }
    w.write_byte(runs[0].signal);
    let mut i: usize = 0;
    assert(w@ + stream_bits(tables, seq, 0) =~= temporal_bits(runs@));
    while i < s.sequence.len()
        invariant
            i <= seq.len(),
            seq == s.sequence@,
            seq.len() <= 5 * 0x1000_0000_0000,
            forall|k: int| 0 <= k < seq.len() ==> #[trigger] seq[k].0 <= 1,
            tables == size_tables(seq),
            t0@ == tables[0],
            t1@ == tables[1],
            huffman::is_table_for(t0@, symbol_freqs(context_bytes(seq, LSB))),
            huffman::is_table_for(t1@, symbol_freqs(context_bytes(seq, MSB))),
            w.wf(),
            w@.len() <= 10008 + 255 * i,
            w@ + stream_bits(tables, seq, i as int) == temporal_bits(runs@),
        decreases seq.len() - i,
    {
        let (ctx, b) = s.sequence[i];
        let ghost before = w@;
        proof {
            assert(seq[i as int].0 <= 1);
            lemma_writable(seq, i as int, tables[ctx as int]);
        }
        if ctx == 0 {
            t0.write_symbol(&mut w, b);
        } else {
            t1.write_symbol(&mut w, b);
        }
        assert(w@ + stream_bits(tables, seq, i + 1) =~= before + stream_bits(
            tables,
            seq,
            i as int,
        ));
        i = i + 1;
    }
    assert(w@ =~= temporal_bits(runs@));
    w.finish()
}

/// The runs from `pos` on, the first of the given signal, until `total` units are covered, a
/// count is zero, or the source ends.
pub open spec fn read_runs(src: Source, pos: int, signal: u8, covered: int, total: int) -> Seq<
    TemporalRun,
>
    decreases total - covered,
{
    let (count, next) = read_count(src, signal as int, pos, 0);
    match count {
        None => Seq::empty(),
        Some(c) => if c == 0 {
            Seq::empty()
        } else if covered + c >= total {
            seq![TemporalRun { signal, count: c }]
        } else {
            seq![TemporalRun { signal, count: c }] + read_runs(
                src,
                next,
                (1 - signal) as u8,
                covered + c,
                total,
            )
        },
    }
}

/// The runs of a temporal chunk that is to cover `total` units. Nothing where its header is
/// cut short or invalid.
pub open spec fn chunk_runs(data: Seq<u8>, total: int) -> Option<Seq<TemporalRun>> {
    let bits = bitstream::bytes_bits(data);
    let (t0, p1) = huffman::parse_table(bits, 0);
    let (t1, p2) = huffman::parse_table(bits, p1);
    let (raw, p3) = huffman::read_n(bits, p2, 8);
    match (t0, t1, raw) {
        (Some(a), Some(b), Some(r)) => Some(
            read_runs(Source::Coded(bits, seq![a, b]), p3, (r % 2) as u8, 0, total),
        ),
        _ => None,
    }
}

/// Decode a temporal chunk into runs, stopping once `total_tu` TUs have been covered.
pub fn decode_temporal_chunk(data: &[u8], total_tu: u32) -> (r: Option<Vec<TemporalRun>>)
    ensures
        match r {
            Some(v) => chunk_runs(data@, total_tu as int) == Some(v@),
            None => chunk_runs(data@, total_tu as int) is None,
        },
{
    let mut bits = BitReader::new(data);
    let t0 = match HuffmanDecoderTable::parse(&mut bits) {
        Some(t) => t,
        None => {
            return None;
        },
    };
    let t1 = match HuffmanDecoderTable::parse(&mut bits) {
        Some(t) => t,
        None => {
            return None;
        },
    };
    let raw: u8 = match bits.read_u8() {
        Some(b) => b,
        None => {
            return None;
        },
    };
    let mut tables: Vec<HuffmanDecoderTable> = Vec::new();
    let ghost models = seq![t0@, t1@];
    tables.push(t0);
    tables.push(t1);
    assert(Seq::new(tables@.len(), |i: int| tables@[i]@) =~= models);
    let mut r = SymbolReader { rle_only: false, data, byte_pos: 0, bits, tables };
    let mut signal: u8 = raw % 2;
    let mut runs: Vec<TemporalRun> = Vec::new();
    let mut covered: u64 = 0;
    let ghost src = r.source();
    let ghost all = read_runs(src, r.pos(), signal, 0, total_tu as int);
    assert(runs@ + all =~= all);
    loop
        invariant
            r.wf(),
            r.has_contexts(2),
            r.source() == src,
            signal <= 1,
            covered <= total_tu,
            covered == total_tu ==> total_tu == 0,
            chunk_runs(data@, total_tu as int) == Some(all),
            runs@ + read_runs(src, r.pos(), signal, covered as int, total_tu as int) == all,
        decreases total_tu - covered,
    {
        let ghost before = runs@;
        let ghost here = r.pos();
        let count: u32 = match r.next_count(signal as usize) {
            Some(c) => c,
            None => {
                assert(runs@ + Seq::<TemporalRun>::empty() =~= runs@);
                return Some(runs);
            },
        };
        if count == 0 {
            assert(runs@ + Seq::<TemporalRun>::empty() =~= runs@);
            return Some(runs);
        }
        runs.push(TemporalRun { signal, count });
        covered = covered + count as u64;
        if covered >= total_tu as u64 {
            assert(runs@ =~= before + seq![TemporalRun { signal, count }]);
            return Some(runs);
        }
        proof {
            let rest = read_runs(
                src,
                r.pos(),
                (1 - signal) as u8,
                covered as int,
                total_tu as int,
            );
            assert(runs@ + rest =~= before + (seq![TemporalRun { signal, count }] + rest));
        }
        signal = 1 - signal;
    }
}

} // verus!
