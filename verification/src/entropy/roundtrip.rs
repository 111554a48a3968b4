//! Symbol streams are read back as they were written.
use crate::bitstream;
use crate::entropy::huffman;
use crate::entropy::huffman::CodeModel;
use crate::entropy::prefix;
use crate::entropy::rle;
use crate::entropy::rle::{CoeffEvent, Source, TemporalRun, LSB, MSB, RL};
use crate::entropy::tree;
use vstd::prelude::*;

verus! {

/// A source written from the sequence `seq`, with these tables where it has any.
#[verifier::opaque]
spec fn written(src: Source, tables: Seq<CodeModel>, seq: Seq<(usize, u8)>) -> bool {
    &&& seq.len() <= u64::MAX
    &&& match src {
        Source::Bytes(data) => data == rle::all_bytes(seq),
        Source::Coded(bits, models) => {
            &&& models.len() == tables.len()
            &&& forall|i: int| 0 <= i < seq.len() ==> #[trigger] seq[i].0 < tables.len()
            &&& forall|ctx: int|
                0 <= ctx < tables.len() ==> {
                    &&& #[trigger] models[ctx] == prefix::decoder_model(tables[ctx])
                    &&& huffman::is_table_for(
                        tables[ctx],
                        rle::symbol_freqs(rle::context_bytes(seq, ctx as usize)),
                    )
                    &&& tables[ctx].max_len <= 31
                }
        },
    }
}

/// The symbols from `i` on stand at `pos`.
spec fn stands(src: Source, tables: Seq<CodeModel>, seq: Seq<(usize, u8)>, i: int, pos: int) -> bool {
    match src {
        Source::Bytes(data) => pos == i,
        Source::Coded(bits, _) => bitstream::has_at(bits, pos, rle::stream_bits(tables, seq, i)),
    }
}

/// The next symbol is read where it stands. The position moves on if its context has another
/// symbol as well.
proof fn lemma_next(
    src: Source,
    tables: Seq<CodeModel>,
    seq: Seq<(usize, u8)>,
    i: int,
    pos: int,
) -> (next: int)
    requires
        written(src, tables, seq),
        0 <= i < seq.len(),
        stands(src, tables, seq, i, pos),
    ensures
        rle::next_symbol(src, seq[i].0 as int, pos) == (Some(seq[i].1), next),
        stands(src, tables, seq, i + 1, next),
        forall|j: int|
            0 <= j < seq.len() && #[trigger] seq[j].0 == seq[i].0 && seq[j].1 != seq[i].1 ==> next
                != pos,
{
    reveal(written);
    match src {
        Source::Bytes(data) => { pos + 1 },
        Source::Coded(bits, models) => {
            let ctx = seq[i].0;
            let b = seq[i].1;
            let t = tables[ctx as int];
            let sb = huffman::symbol_bits(t, b);
            let freqs = rle::symbol_freqs(rle::context_bytes(seq, ctx));
            assert(models[ctx as int] == prefix::decoder_model(t));
            rle::lemma_writable(seq, i, t);
            bitstream::lemma_has_at_concat(bits, pos, sb, rle::stream_bits(tables, seq, i + 1));
            prefix::law_symbol_roundtrip(t, freqs, bits, pos, b);
            assert forall|j: int|
                0 <= j < seq.len() && #[trigger] seq[j].0 == ctx && seq[j].1 != b implies pos
                + sb.len() != pos by {
                rle::lemma_writable(seq, j, t);
                tree::lemma_leaves_present(freqs, 256);
                if tree::leaves(freqs, 256).len() == 1 {
                    tree::lemma_leaves_single(freqs, 256);
                }
                tree::lemma_huffman_lengths(freqs, t.max_len as int);
                assert(t.length[b as int] > 0);
                bitstream::lemma_bits_of_len(t.code[b as int] as nat, t.length[b as int] as nat);
            }
            pos + sb.len()
        },
    }
}

/// Reading the chunks of `v` without a last one leaves `v` in the accumulator.
proof fn lemma_count_prefix(
    src: Source,
    tables: Seq<CodeModel>,
    seq: Seq<(usize, u8)>,
    i: int,
    pos: int,
    ctx: usize,
    v: nat,
    j: int,
) -> (next: int)
    requires
        written(src, tables, seq),
        stands(src, tables, seq, i, pos),
        v < 0x1_0000_0000,
        0 <= i,
        i + bitstream::groups7(v, false).len() <= seq.len(),
        seq.subrange(i, i + bitstream::groups7(v, false).len() as int) == rle::in_context(
            ctx,
            bitstream::groups7(v, false),
        ),
        0 <= j < seq.len(),
        seq[j].0 == ctx,
        seq[j].1 < 128,
    ensures
        stands(src, tables, seq, i + bitstream::groups7(v, false).len(), next),
        rle::read_count(src, ctx as int, pos, 0) == rle::read_count(
            src,
            ctx as int,
            next,
            v as int,
        ),
    decreases v,
{
    let g = bitstream::groups7(v, false);
    let n = g.len() as int;
    bitstream::lemma_groups7_len(v, false);
    let part = seq.subrange(i, i + n);
    assert(seq[i + n - 1] == part[n - 1]);
    assert(part[n - 1] == (ctx, g[n - 1]));
    assert(g[n - 1] >= 128);
    if v >= 128 {
        let h = bitstream::groups7(v / 128, false);
        assert(g.subrange(0, n - 1) =~= h);
        assert(seq.subrange(i, i + h.len() as int) =~= rle::in_context(ctx, h)) by {
            assert forall|k: int| 0 <= k < h.len() implies seq[i + k] == (ctx, h[k]) by {
                assert(seq[i + k] == part[k]);
                assert(h[k] == g[k]);
            }
        }
        let mid = lemma_count_prefix(src, tables, seq, i, pos, ctx, v / 128, j);
        let next = lemma_next(src, tables, seq, i + n - 1, mid);
        assert(next != mid);
        next
    } else {
        let next = lemma_next(src, tables, seq, i, pos);
        assert(next != pos);
        next
    }
}

/// A count is read back where its bytes stand.
proof fn lemma_count(
    src: Source,
    tables: Seq<CodeModel>,
    seq: Seq<(usize, u8)>,
    i: int,
    pos: int,
    ctx: usize,
    v: nat,
) -> (next: int)
    requires
        written(src, tables, seq),
        stands(src, tables, seq, i, pos),
        v < 0x1_0000_0000,
        0 <= i,
        i + bitstream::multibyte(v).len() <= seq.len(),
        seq.subrange(i, i + bitstream::multibyte(v).len() as int) == rle::in_context(
            ctx,
            bitstream::multibyte(v),
        ),
    ensures
        stands(src, tables, seq, i + bitstream::multibyte(v).len(), next),
        rle::read_count(src, ctx as int, pos, 0) == (Some(v as u32), next),
{
    let g = bitstream::multibyte(v);
    let n = g.len() as int;
    bitstream::lemma_groups7_len(v, true);
    let part = seq.subrange(i, i + n);
    assert(seq[i + n - 1] == part[n - 1]);
    assert(part[n - 1] == (ctx, g[n - 1]));
    assert(g[n - 1] < 128);
    if v >= 128 {
        let h = bitstream::groups7(v / 128, false);
        assert(g.subrange(0, n - 1) =~= h);
        assert(seq.subrange(i, i + h.len() as int) =~= rle::in_context(ctx, h)) by {
            assert forall|k: int| 0 <= k < h.len() implies seq[i + k] == (ctx, h[k]) by {
                assert(seq[i + k] == part[k]);
                assert(h[k] == g[k]);
            }
        }
        let mid = lemma_count_prefix(src, tables, seq, i, pos, ctx, v / 128, i + n - 1);
        lemma_next(src, tables, seq, i + n - 1, mid)
    } else {
        lemma_next(src, tables, seq, i, pos)
    }
}

/// Values that a stream can carry.
pub open spec fn carried(ev: CoeffEvent) -> bool {
    -8192 <= ev.value <= 8191
}

/// The value that the bytes of a carried value stand for.
proof fn lemma_value_bytes(v: int, run: u32)
    requires
        -8192 <= v <= 8191,
    ensures
        match rle::value_bytes(v) {
            (l, None) => {
                let b = rle::flagged(l, run);
                b % 2 == 0 && b as int / 2 % 64 - 32 == v && (b >= 128 <==> run > 0)
            },
            (l, Some(m)) => {
                let b = rle::flagged(m, run);
                l % 2 == 1 && ((b as int % 128) * 128 + l as int / 2) - 8192 == v && (b >= 128
                    <==> run > 0)
            },
        },
{
}

/// The value of an event is read back where its symbols stand.
proof fn lemma_event_value(
    src: Source,
    tables: Seq<CodeModel>,
    seq: Seq<(usize, u8)>,
    i: int,
    pos: int,
    ev: CoeffEvent,
) -> (next: int)
    requires
        written(src, tables, seq),
        stands(src, tables, seq, i, pos),
        carried(ev),
        0 <= i,
        i + rle::event_symbols(ev).len() <= seq.len(),
        seq.subrange(i, i + rle::event_symbols(ev).len() as int) == rle::event_symbols(ev),
    ensures
        stands(
            src,
            tables,
            seq,
            i + rle::event_symbols(ev).len() - rle::run_symbols(ev.zero_run).len(),
            next,
        ),
        rle::read_value(src, pos) == (Some((ev.value, ev.zero_run > 0)), next),
{
    let es = rle::event_symbols(ev);
    let part = seq.subrange(i, i + es.len() as int);
    lemma_value_bytes(ev.value as int, ev.zero_run);
    assert(seq[i] == part[0]);
    let p1 = lemma_next(src, tables, seq, i, pos);
    match rle::value_bytes(ev.value as int) {
        (l, None) => { p1 },
        (l, Some(m)) => {
            assert(seq[i + 1] == part[1]);
            lemma_next(src, tables, seq, i + 1, p1)
        },
    }
}

/// An event is read back where its symbols stand.
proof fn lemma_event(
    src: Source,
    tables: Seq<CodeModel>,
    seq: Seq<(usize, u8)>,
    i: int,
    pos: int,
    ev: CoeffEvent,
) -> (next: int)
    requires
        written(src, tables, seq),
        stands(src, tables, seq, i, pos),
        carried(ev),
        0 <= i,
        i + rle::event_symbols(ev).len() <= seq.len(),
        seq.subrange(i, i + rle::event_symbols(ev).len() as int) == rle::event_symbols(ev),
    ensures
        stands(src, tables, seq, i + rle::event_symbols(ev).len(), next),
        rle::read_event(src, pos) == (Some(ev), next),
{
    let es = rle::event_symbols(ev);
    let part = seq.subrange(i, i + es.len() as int);
    let rs = rle::run_symbols(ev.zero_run);
    let p2 = lemma_event_value(src, tables, seq, i, pos, ev);
    let k = es.len() - rs.len();
    assert(ev == CoeffEvent { value: ev.value, zero_run: ev.zero_run });
    if ev.zero_run > 0 {
        let g = bitstream::multibyte(ev.zero_run as nat);
        assert(seq.subrange(i + k, i + k + g.len() as int) =~= rs) by {
            assert forall|m: int| 0 <= m < g.len() implies seq[i + k + m] == rs[m] by {
                assert(seq[i + k + m] == part[k + m]);
                assert(es[k + m] == rs[m]);
            }
        }
        lemma_count(src, tables, seq, i + k, p2, RL, ev.zero_run as nat)
    } else {
        p2
    }
}

/// Positions that events cover: a value each, and its zero run.
pub open spec fn coverage(events: Seq<CoeffEvent>) -> int
    decreases events.len(),
{
    if events.len() == 0 {
        0
    } else {
        coverage(events.drop_last()) + 1 + events.last().zero_run
    }
}

proof fn lemma_coverage_mono(events: Seq<CoeffEvent>, k: int)
    requires
        0 <= k <= events.len(),
    ensures
        0 <= coverage(events.subrange(0, k)) <= coverage(events),
    decreases events.len(),
{
    if k == events.len() {
        assert(events.subrange(0, k) =~= events);
        if k > 0 {
            lemma_coverage_mono(events.drop_last(), k - 1);
        }
    } else {
        lemma_coverage_mono(events.drop_last(), k);
        assert(events.drop_last().subrange(0, k) =~= events.subrange(0, k));
    }
}

/// The symbols of event `k` stand in the sequence after those of the events before it.
proof fn lemma_event_segment(events: Seq<CoeffEvent>, k: int)
    requires
        0 <= k < events.len(),
    ensures
        ({
            let off = rle::events_symbols(events.subrange(0, k)).len() as int;
            let es = rle::event_symbols(events[k]);
            &&& off + es.len() <= rle::events_symbols(events).len()
            &&& rle::events_symbols(events).subrange(off, off + es.len() as int) == es
            &&& rle::events_symbols(events.subrange(0, k + 1)).len() == off + es.len()
        }),
    decreases events.len(),
{
    let all = rle::events_symbols(events);
    let off = rle::events_symbols(events.subrange(0, k)).len() as int;
    let es = rle::event_symbols(events[k]);
    assert(events.subrange(0, k + 1).drop_last() =~= events.subrange(0, k));
    if k == events.len() - 1 {
        assert(events.drop_last() =~= events.subrange(0, k));
        assert(events.subrange(0, k + 1) =~= events);
        assert(all.subrange(off, off + es.len() as int) =~= es);
    } else {
        let d = events.drop_last();
        lemma_event_segment(d, k);
        assert(d.subrange(0, k) =~= events.subrange(0, k));
        let dall = rle::events_symbols(d);
        assert(all.subrange(off, off + es.len() as int) =~= dall.subrange(
            off,
            off + es.len() as int,
        ));
    }
}

proof fn lemma_events(
    src: Source,
    tables: Seq<CodeModel>,
    events: Seq<CoeffEvent>,
    k: int,
    pos: int,
    total: int,
)
    requires
        written(src, tables, rle::events_symbols(events)),
        0 <= k < events.len(),
        forall|i: int| 0 <= i < events.len() ==> carried(#[trigger] events[i]),
        stands(
            src,
            tables,
            rle::events_symbols(events),
            rle::events_symbols(events.subrange(0, k)).len() as int,
            pos,
        ),
        coverage(events.drop_last()) < total <= coverage(events),
    ensures
        rle::read_events(src, pos, coverage(events.subrange(0, k)), total) == events.subrange(
            k,
            events.len() as int,
        ),
    decreases events.len() - k,
{
    let seq = rle::events_symbols(events);
    let off = rle::events_symbols(events.subrange(0, k)).len() as int;
    lemma_event_segment(events, k);
    assert(carried(events[k]));
    let next = lemma_event(src, tables, seq, off, pos, events[k]);
    assert(events.subrange(0, k + 1).drop_last() =~= events.subrange(0, k));
    let c = coverage(events.subrange(0, k + 1));
    assert(c == coverage(events.subrange(0, k)) + 1 + events[k].zero_run);
    let rest = events.subrange(k, events.len() as int);
    if k == events.len() - 1 {
        assert(events.subrange(0, k + 1) =~= events);
        assert(rest =~= seq![events[k]]);
    } else {
        lemma_coverage_mono(events.drop_last(), k + 1);
        assert(events.drop_last().subrange(0, k + 1) =~= events.subrange(0, k + 1));
        lemma_events(src, tables, events, k + 1, next, total);
        assert(rest =~= seq![events[k]] + events.subrange(k + 1, events.len() as int));
    }
}

/// An RLE-only chunk is decoded back into its events, when the positions asked for end with
/// the last event.
pub proof fn law_rle_chunk_roundtrip(events: Seq<CoeffEvent>, total: int)
    requires
        0 < events.len() <= 0x1000_0000_0000,
        forall|i: int| 0 <= i < events.len() ==> carried(#[trigger] events[i]),
        coverage(events.drop_last()) < total <= coverage(events),
    ensures
        rle::chunk_events(rle::rle_chunk(events), true, total) == events,
{
    let seq = rle::events_symbols(events);
    rle::lemma_events_symbols_len(events);
    let src = Source::Bytes(rle::rle_chunk(events));
    assert(written(src, Seq::empty(), seq)) by {
        reveal(written);
    }
    lemma_events_from_start(src, Seq::empty(), events, 0, total);
}

proof fn lemma_events_from_start(
    src: Source,
    tables: Seq<CodeModel>,
    events: Seq<CoeffEvent>,
    pos: int,
    total: int,
)
    requires
        written(src, tables, rle::events_symbols(events)),
        0 < events.len(),
        forall|i: int| 0 <= i < events.len() ==> carried(#[trigger] events[i]),
        stands(src, tables, rle::events_symbols(events), 0, pos),
        coverage(events.drop_last()) < total <= coverage(events),
    ensures
        rle::source_events(src, pos, total) == events,
{
    assert(events.subrange(0, 0) =~= Seq::empty());
    assert(coverage(events.subrange(0, 0)) == 0);
    lemma_coverage_mono(events.drop_last(), 0);
    lemma_events(src, tables, events, 0, pos, total);
    assert(events.subrange(0, events.len() as int) =~= events);
}

/// The longest code of each context fits the five bits that a header has for it.
pub open spec fn tables_fit(tables: Seq<CodeModel>) -> bool {
    forall|i: int| 0 <= i < tables.len() ==> #[trigger] tables[i].max_len <= 31
}

proof fn lemma_prefix_at(bits: Seq<bool>, all: Seq<bool>)
    requires
        bits == all + bitstream::padding(all.len()),
    ensures
        bitstream::has_at(bits, 0, all),
{
    assert(bits.subrange(0, all.len() as int) =~= all);
}

/// A header in front of more bits is read back as the decoder's side of its context's table.
proof fn lemma_header(
    seq: Seq<(usize, u8)>,
    ctx: usize,
    bits: Seq<bool>,
    pos: int,
    rest: Seq<bool>,
)
    requires
        rle::context_table(seq, ctx).max_len <= 31,
        bitstream::has_at(bits, pos, huffman::header_bits(rle::context_table(seq, ctx)) + rest),
    ensures
        huffman::parse_table(bits, pos) == (
            Some(prefix::decoder_model(rle::context_table(seq, ctx))),
            pos + huffman::header_bits(rle::context_table(seq, ctx)).len(),
        ),
        bitstream::has_at(
            bits,
            pos + huffman::header_bits(rle::context_table(seq, ctx)).len() as int,
            rest,
        ),
{
    let t = rle::context_table(seq, ctx);
    lemma_context_table(seq, ctx);
    bitstream::lemma_has_at_concat(bits, pos, huffman::header_bits(t), rest);
    prefix::law_header_roundtrip(
        t,
        rle::symbol_freqs(rle::context_bytes(seq, ctx)),
        bits,
        pos,
    );
}

pub proof fn lemma_context_table(seq: Seq<(usize, u8)>, ctx: usize)
    ensures
        huffman::is_table_for(
            rle::context_table(seq, ctx),
            rle::symbol_freqs(rle::context_bytes(seq, ctx)),
        ),
{
    let freqs = rle::symbol_freqs(rle::context_bytes(seq, ctx));
    let c = lemma_table_exists(freqs);
    rle::lemma_table_unique(c, freqs);
}

proof fn lemma_max_exists(lens: Seq<u8>, n: int) -> (m: u8)
    requires
        0 < n <= 256,
        lens.len() == 256,
    ensures
        exists|s: int| 0 <= s < n && #[trigger] lens[s] == m,
        forall|s: int| 0 <= s < n ==> #[trigger] lens[s] <= m,
    decreases n,
{
    if n == 1 {
        assert(lens[0] == lens[0]);
        lens[0]
    } else {
        let m = lemma_max_exists(lens, n - 1);
        if lens[n - 1] > m {
            lens[n - 1]
        } else {
            let s = choose|s: int| 0 <= s < n - 1 && #[trigger] lens[s] == m;
            assert(0 <= s < n && lens[s] == m);
            m
        }
    }
}

proof fn lemma_min_exists(lens: Seq<u8>, n: int) -> (m: u8)
    requires
        0 < n <= 256,
        lens.len() == 256,
    ensures
        m > 0 ==> exists|s: int| 0 <= s < n && #[trigger] lens[s] == m,
        m > 0 ==> forall|s: int| 0 <= s < n && #[trigger] lens[s] > 0 ==> m <= lens[s],
        m == 0 ==> forall|s: int| 0 <= s < n ==> #[trigger] lens[s] == 0,
    decreases n,
{
    let l = lens[n - 1];
    if n == 1 {
        l
    } else {
        let m = lemma_min_exists(lens, n - 1);
        if l > 0 && (m == 0 || l < m) {
            l
        } else {
            if m > 0 {
                let s = choose|s: int| 0 <= s < n - 1 && #[trigger] lens[s] == m;
                assert(0 <= s < n && lens[s] == m);
            }
            m
        }
    }
}

/// There is a table for every choice of frequencies.
proof fn lemma_table_exists(freqs: Seq<u64>) -> (c: CodeModel)
    requires
        freqs.len() == 256,
    ensures
        huffman::is_table_for(c, freqs),
{
    let n = tree::leaves(freqs, 256).len();
    if n == 0 {
        CodeModel {
            code: huffman::no_codes(),
            length: huffman::no_lengths(),
            min_len: 31,
            max_len: 31,
            single_symbol: None,
            empty: true,
        }
    } else if n == 1 {
        CodeModel {
            code: huffman::no_codes(),
            length: huffman::no_lengths(),
            min_len: 0,
            max_len: 0,
            single_symbol: Some(tree::leaves(freqs, 256)[0]->Leaf_symbol),
            empty: false,
        }
    } else {
        let lens = tree::huffman_lengths(freqs);
        tree::lemma_huffman_lengths(freqs, 255);
        tree::lemma_leaves_present(freqs, 256);
        let s = choose|s: int| 0 <= s < 256 && #[trigger] freqs[s] > 0;
        assert(lens[s] > 0);
        let min_len = lemma_min_exists(lens, 256);
        let max_len = lemma_max_exists(lens, 256);
        assert(huffman::is_min_len(lens, min_len));
        assert(huffman::is_max_len(lens, max_len));
        let code = Seq::new(256, |s: int| huffman::code_of(lens, max_len as int, s) as u32);
        assert forall|s: int| 0 <= s < 256 implies #[trigger] code[s] == huffman::code_of(
            lens,
            max_len as int,
            s,
        ) by {
            huffman::lemma_first_code_bound(lens, max_len as int, lens[s] as int);
            huffman::lemma_count_len_bound(lens, lens[s] as int, s);
        }
        CodeModel { code, length: lens, min_len, max_len, single_symbol: None, empty: false }
    }
}

/// A Huffman-coded chunk is decoded back into its events, when the positions asked for end
/// with the last event and the code lengths fit the table headers.
pub proof fn law_coefficient_chunk_roundtrip(events: Seq<CoeffEvent>, total: int)
    requires
        0 < events.len() <= 0x1000_0000_0000,
        forall|i: int| 0 <= i < events.len() ==> carried(#[trigger] events[i]),
        coverage(events.drop_last()) < total <= coverage(events),
        tables_fit(rle::coeff_tables(rle::events_symbols(events))),
    ensures
        rle::chunk_events(rle::coefficient_chunk(events), false, total) == events,
{
    let seq = rle::events_symbols(events);
    let tables = rle::coeff_tables(seq);
    let all = rle::coefficient_bits(events);
    let bits = bitstream::bytes_bits(rle::coefficient_chunk(events));
    rle::lemma_events_symbols_len(events);
    bitstream::lemma_pack(all);
    lemma_prefix_at(bits, all);
    let h0 = huffman::header_bits(tables[0]);
    let h1 = huffman::header_bits(tables[1]);
    let h2 = huffman::header_bits(tables[2]);
    let body = rle::stream_bits(tables, seq, 0);
    assert(all =~= h0 + (h1 + (h2 + body)));
    assert(tables[0].max_len <= 31 && tables[1].max_len <= 31 && tables[2].max_len <= 31);
    lemma_header(seq, LSB, bits, 0, h1 + (h2 + body));
    let p1 = h0.len() as int;
    lemma_header(seq, MSB, bits, p1, h2 + body);
    let p2 = p1 + h1.len();
    lemma_header(seq, RL, bits, p2, body);
    let p3 = p2 + h2.len();
    let src = lemma_three_tables(seq, bits);
    lemma_events_from_start(src, tables, events, p3, total);
}

/// A source with the tables of three contexts.
proof fn lemma_three_tables(seq: Seq<(usize, u8)>, bits: Seq<bool>) -> (src: Source)
    requires
        seq.len() <= u64::MAX,
        forall|i: int| 0 <= i < seq.len() ==> #[trigger] seq[i].0 <= 2,
        tables_fit(rle::coeff_tables(seq)),
    ensures
        written(src, rle::coeff_tables(seq), seq),
        src == Source::Coded(
            bits,
            seq![
                prefix::decoder_model(rle::context_table(seq, LSB)),
                prefix::decoder_model(rle::context_table(seq, MSB)),
                prefix::decoder_model(rle::context_table(seq, RL)),
            ],
        ),
{
    reveal(written);
    let tables = rle::coeff_tables(seq);
    let models = seq![
        prefix::decoder_model(tables[0]),
        prefix::decoder_model(tables[1]),
        prefix::decoder_model(tables[2]),
    ];
    lemma_context_table(seq, LSB);
    lemma_context_table(seq, MSB);
    lemma_context_table(seq, RL);
    assert forall|ctx: int| 0 <= ctx < tables.len() implies {
        &&& #[trigger] models[ctx] == prefix::decoder_model(tables[ctx])
        &&& huffman::is_table_for(
            tables[ctx],
            rle::symbol_freqs(rle::context_bytes(seq, ctx as usize)),
        )
        &&& tables[ctx].max_len <= 31
    } by {
        assert(ctx == 0 || ctx == 1 || ctx == 2);
    }
    Source::Coded(bits, models)
}

/// The number that a size stands for, as a reader gives it.
pub open spec fn size_value(size: u16, signed_delta: bool) -> int {
    if signed_delta && size >= 32768 {
        size - 65536
    } else {
        size as int
    }
}

/// Sizes of fourteen bits, or signed ones of fourteen bits and a sign.
pub open spec fn size_carried(size: u16, signed_delta: bool) -> bool {
    if signed_delta {
        -16384 <= size_value(size, signed_delta) <= 16383
    } else {
        size < 16384
    }
}

proof fn lemma_size(
    src: Source,
    tables: Seq<CodeModel>,
    seq: Seq<(usize, u8)>,
    i: int,
    pos: int,
    size: u16,
    signed_delta: bool,
) -> (next: int)
    requires
        written(src, tables, seq),
        stands(src, tables, seq, i, pos),
        size_carried(size, signed_delta),
        0 <= i,
        i + rle::size_symbols(size, signed_delta).len() <= seq.len(),
        seq.subrange(i, i + rle::size_symbols(size, signed_delta).len() as int)
            == rle::size_symbols(size, signed_delta),
    ensures
        stands(src, tables, seq, i + rle::size_symbols(size, signed_delta).len(), next),
        rle::read_size(src, pos, signed_delta) == (
            Some(size_value(size, signed_delta) as i16),
            next,
        ),
{
    let es = rle::size_symbols(size, signed_delta);
    let part = seq.subrange(i, i + es.len() as int);
    let p1 = lemma_next(src, tables, seq, i, pos);
    assert(seq[i] == part[0]);
    let v = size_value(size, signed_delta);
    if es.len() == 2 {
        assert(seq[i + 1] == part[1]);
        let p2 = lemma_next(src, tables, seq, i + 1, p1);
        let m = seq[i + 1].1 as int;
        let l = seq[i].1 as int;
        let raw = m * 128 + l / 2;
        assert(l / 2 == v % 128);
        if signed_delta {
            if v < 0 {
                assert(m == (v / 128) % 128 + 128);
                assert((v / 128) % 128 == v / 128 + 128);
                assert(raw == v + 16384 + 16384);
                assert(raw % 16384 - 16384 == v);
            } else {
                assert((v / 128) % 128 == v / 128);
                assert(raw == v);
            }
        } else {
            assert((v / 128) % 128 == v / 128);
            assert(raw == v);
        }
        p2
    } else {
        p1
    }
}

proof fn lemma_size_segment(sizes: Seq<u16>, signed_delta: bool, k: int)
    requires
        0 <= k < sizes.len(),
    ensures
        ({
            let off = rle::sizes_symbols(sizes.subrange(0, k), signed_delta).len() as int;
            let es = rle::size_symbols(sizes[k], signed_delta);
            &&& off + es.len() <= rle::sizes_symbols(sizes, signed_delta).len()
            &&& rle::sizes_symbols(sizes, signed_delta).subrange(off, off + es.len() as int) == es
            &&& rle::sizes_symbols(sizes.subrange(0, k + 1), signed_delta).len() == off + es.len()
        }),
    decreases sizes.len(),
{
    let all = rle::sizes_symbols(sizes, signed_delta);
    let off = rle::sizes_symbols(sizes.subrange(0, k), signed_delta).len() as int;
    let es = rle::size_symbols(sizes[k], signed_delta);
    assert(sizes.subrange(0, k + 1).drop_last() =~= sizes.subrange(0, k));
    if k == sizes.len() - 1 {
        assert(sizes.drop_last() =~= sizes.subrange(0, k));
        assert(sizes.subrange(0, k + 1) =~= sizes);
        assert(all.subrange(off, off + es.len() as int) =~= es);
    } else {
        let d = sizes.drop_last();
        lemma_size_segment(d, signed_delta, k);
        assert(d.subrange(0, k) =~= sizes.subrange(0, k));
        let dall = rle::sizes_symbols(d, signed_delta);
        assert(all.subrange(off, off + es.len() as int) =~= dall.subrange(
            off,
            off + es.len() as int,
        ));
    }
}

/// The numbers that sizes stand for.
pub open spec fn size_values(sizes: Seq<u16>, signed_delta: bool) -> Seq<i16> {
    Seq::new(sizes.len(), |i: int| size_value(sizes[i], signed_delta) as i16)
}

proof fn lemma_sizes(
    src: Source,
    tables: Seq<CodeModel>,
    sizes: Seq<u16>,
    signed_delta: bool,
    k: int,
    pos: int,
)
    requires
        written(src, tables, rle::sizes_symbols(sizes, signed_delta)),
        0 <= k <= sizes.len(),
        forall|i: int| 0 <= i < sizes.len() ==> size_carried(#[trigger] sizes[i], signed_delta),
        stands(
            src,
            tables,
            rle::sizes_symbols(sizes, signed_delta),
            rle::sizes_symbols(sizes.subrange(0, k), signed_delta).len() as int,
            pos,
        ),
    ensures
        rle::read_sizes(src, pos, (sizes.len() - k) as nat, signed_delta) == Some(
            size_values(sizes, signed_delta).subrange(k, sizes.len() as int),
        ),
    decreases sizes.len() - k,
{
    let seq = rle::sizes_symbols(sizes, signed_delta);
    let vals = size_values(sizes, signed_delta);
    if k == sizes.len() {
        assert(vals.subrange(k, k) =~= Seq::empty());
    } else {
        let off = rle::sizes_symbols(sizes.subrange(0, k), signed_delta).len() as int;
        lemma_size_segment(sizes, signed_delta, k);
        assert(size_carried(sizes[k], signed_delta));
        let next = lemma_size(src, tables, seq, off, pos, sizes[k], signed_delta);
        lemma_sizes(src, tables, sizes, signed_delta, k + 1, next);
        assert(vals.subrange(k, sizes.len() as int) =~= seq![vals[k]] + vals.subrange(
            k + 1,
            sizes.len() as int,
        ));
    }
}

/// A size stream is decoded back into its sizes, when the code lengths fit the table headers.
pub proof fn law_sizes_roundtrip(sizes: Seq<u16>, signed_delta: bool)
    requires
        sizes.len() <= 0x1000_0000_0000,
        forall|i: int| 0 <= i < sizes.len() ==> size_carried(#[trigger] sizes[i], signed_delta),
        tables_fit(rle::size_tables(rle::sizes_symbols(sizes, signed_delta))),
    ensures
        rle::chunk_sizes(rle::sizes_chunk(sizes, signed_delta), sizes.len(), signed_delta) == Some(
            size_values(sizes, signed_delta),
        ),
{
    let seq = rle::sizes_symbols(sizes, signed_delta);
    let tables = rle::size_tables(seq);
    let all = rle::sizes_bits(sizes, signed_delta);
    let bits = bitstream::bytes_bits(rle::sizes_chunk(sizes, signed_delta));
    rle::lemma_sizes_symbols_len(sizes, signed_delta);
    bitstream::lemma_pack(all);
    lemma_prefix_at(bits, all);
    let h0 = huffman::header_bits(tables[0]);
    let h1 = huffman::header_bits(tables[1]);
    let body = rle::stream_bits(tables, seq, 0);
    assert(all =~= h0 + (h1 + body));
    assert(tables[0].max_len <= 31 && tables[1].max_len <= 31);
    lemma_header(seq, LSB, bits, 0, h1 + body);
    let p1 = h0.len() as int;
    lemma_header(seq, MSB, bits, p1, body);
    let p2 = p1 + h1.len();
    let src = lemma_two_tables(seq, bits);
    assert(sizes.subrange(0, 0) =~= Seq::empty());
    lemma_sizes(src, tables, sizes, signed_delta, 0, p2);
    let vals = size_values(sizes, signed_delta);
    assert(vals.subrange(0, sizes.len() as int) =~= vals);
}

/// A source with the tables of two contexts.
proof fn lemma_two_tables(seq: Seq<(usize, u8)>, bits: Seq<bool>) -> (src: Source)
    requires
        seq.len() <= u64::MAX,
        forall|i: int| 0 <= i < seq.len() ==> #[trigger] seq[i].0 <= 1,
        tables_fit(rle::size_tables(seq)),
    ensures
        written(src, rle::size_tables(seq), seq),
        src == Source::Coded(
            bits,
            seq![
                prefix::decoder_model(rle::context_table(seq, LSB)),
                prefix::decoder_model(rle::context_table(seq, MSB)),
            ],
        ),
{
    reveal(written);
    let tables = rle::size_tables(seq);
    let models = seq![prefix::decoder_model(tables[0]), prefix::decoder_model(tables[1])];
    lemma_context_table(seq, LSB);
    lemma_context_table(seq, MSB);
    assert forall|ctx: int| 0 <= ctx < tables.len() implies {
        &&& #[trigger] models[ctx] == prefix::decoder_model(tables[ctx])
        &&& huffman::is_table_for(
            tables[ctx],
            rle::symbol_freqs(rle::context_bytes(seq, ctx as usize)),
        )
        &&& tables[ctx].max_len <= 31
    } by {
        assert(ctx == 0 || ctx == 1);
    }
    Source::Coded(bits, models)
}

/// Transform units that runs cover.
pub open spec fn runs_total(runs: Seq<TemporalRun>) -> int
    decreases runs.len(),
{
    if runs.len() == 0 {
        0
    } else {
        runs_total(runs.drop_last()) + runs.last().count
    }
}

/// Runs as they can be written: none is empty, and the signals 0 and 1 alternate.
pub open spec fn runs_valid(runs: Seq<TemporalRun>) -> bool {
    &&& forall|i: int|
        0 <= i < runs.len() ==> #[trigger] runs[i].signal <= 1 && runs[i].count > 0
    &&& forall|i: int|
        0 <= i < runs.len() ==> #[trigger] runs[i].signal == (runs[0].signal + i) % 2
}

proof fn lemma_runs_total_mono(runs: Seq<TemporalRun>, k: int)
    requires
        0 <= k <= runs.len(),
    ensures
        0 <= runs_total(runs.subrange(0, k)) <= runs_total(runs),
    decreases runs.len(),
{
    if k == runs.len() {
        assert(runs.subrange(0, k) =~= runs);
        if k > 0 {
            lemma_runs_total_mono(runs.drop_last(), k - 1);
        }
    } else {
        lemma_runs_total_mono(runs.drop_last(), k);
        assert(runs.drop_last().subrange(0, k) =~= runs.subrange(0, k));
    }
}

proof fn lemma_run_segment(runs: Seq<TemporalRun>, k: int)
    requires
        0 <= k < runs.len(),
    ensures
        ({
            let off = rle::runs_symbols(runs.subrange(0, k)).len() as int;
            let es = rle::in_context(
                runs[k].signal as usize,
                bitstream::multibyte(runs[k].count as nat),
            );
            &&& off + es.len() <= rle::runs_symbols(runs).len()
            &&& rle::runs_symbols(runs).subrange(off, off + es.len() as int) == es
            &&& rle::runs_symbols(runs.subrange(0, k + 1)).len() == off + es.len()
        }),
    decreases runs.len(),
{
    let all = rle::runs_symbols(runs);
    let off = rle::runs_symbols(runs.subrange(0, k)).len() as int;
    let es = rle::in_context(runs[k].signal as usize, bitstream::multibyte(runs[k].count as nat));
    assert(runs.subrange(0, k + 1).drop_last() =~= runs.subrange(0, k));
    if k == runs.len() - 1 {
        assert(runs.drop_last() =~= runs.subrange(0, k));
        assert(runs.subrange(0, k + 1) =~= runs);
        assert(all.subrange(off, off + es.len() as int) =~= es);
    } else {
        let d = runs.drop_last();
        lemma_run_segment(d, k);
        assert(d.subrange(0, k) =~= runs.subrange(0, k));
        let dall = rle::runs_symbols(d);
        assert(all.subrange(off, off + es.len() as int) =~= dall.subrange(
            off,
            off + es.len() as int,
        ));
    }
}

proof fn lemma_runs(
    src: Source,
    tables: Seq<CodeModel>,
    runs: Seq<TemporalRun>,
    k: int,
    pos: int,
    total: int,
)
    requires
        written(src, tables, rle::runs_symbols(runs)),
        0 <= k < runs.len(),
        runs_valid(runs),
        stands(
            src,
            tables,
            rle::runs_symbols(runs),
            rle::runs_symbols(runs.subrange(0, k)).len() as int,
            pos,
        ),
        runs_total(runs.drop_last()) < total <= runs_total(runs),
    ensures
        rle::read_runs(src, pos, runs[k].signal, runs_total(runs.subrange(0, k)), total)
            == runs.subrange(k, runs.len() as int),
    decreases runs.len() - k,
{
    let seq = rle::runs_symbols(runs);
    let off = rle::runs_symbols(runs.subrange(0, k)).len() as int;
    lemma_run_segment(runs, k);
    let r = runs[k];
    assert(r.signal <= 1 && r.count > 0);
    let next = lemma_count(src, tables, seq, off, pos, r.signal as usize, r.count as nat);
    assert(runs.subrange(0, k + 1).drop_last() =~= runs.subrange(0, k));
    let rest = runs.subrange(k, runs.len() as int);
    assert(r == TemporalRun { signal: r.signal, count: r.count });
    if k == runs.len() - 1 {
        assert(runs.subrange(0, k + 1) =~= runs);
        assert(rest =~= seq![r]);
    } else {
        lemma_runs_total_mono(runs.drop_last(), k + 1);
        assert(runs.drop_last().subrange(0, k + 1) =~= runs.subrange(0, k + 1));
        assert(runs[k + 1].signal == (runs[0].signal + (k + 1)) % 2);
        assert(runs[k].signal == (runs[0].signal + k) % 2);
        assert(runs[k + 1].signal == (1 - r.signal) as u8);
        lemma_runs(src, tables, runs, k + 1, next, total);
        assert(rest =~= seq![r] + runs.subrange(k + 1, runs.len() as int));
    }
}

/// A temporal chunk is decoded back into its runs, when the units asked for end with the last
/// run and the code lengths fit the table headers.
pub proof fn law_temporal_chunk_roundtrip(runs: Seq<TemporalRun>, total: int)
    requires
        0 < runs.len() <= 0x1000_0000_0000,
        runs_valid(runs),
        runs_total(runs.drop_last()) < total <= runs_total(runs),
        tables_fit(rle::size_tables(rle::runs_symbols(runs))),
    ensures
        rle::chunk_runs(rle::temporal_chunk(runs), total) == Some(runs),
{
    let seq = rle::runs_symbols(runs);
    let tables = rle::size_tables(seq);
    let all = rle::temporal_bits(runs);
    let bits = bitstream::bytes_bits(rle::temporal_chunk(runs));
    rle::lemma_runs_symbols_len(runs);
    bitstream::lemma_pack(all);
    lemma_prefix_at(bits, all);
    let h0 = huffman::header_bits(tables[0]);
    let h1 = huffman::header_bits(tables[1]);
    let ib = bitstream::bits_of(runs[0].signal as nat, 8);
    let body = rle::stream_bits(tables, seq, 0);
    assert(all =~= h0 + (h1 + (ib + body)));
    assert(tables[0].max_len <= 31 && tables[1].max_len <= 31);
    lemma_header(seq, LSB, bits, 0, h1 + (ib + body));
    let p1 = h0.len() as int;
    lemma_header(seq, MSB, bits, p1, ib + body);
    let p2 = p1 + h1.len();
    bitstream::lemma_has_at_concat(bits, p2, ib, body);
    assert(runs[0].signal <= 1);
    bitstream::lemma_two_pow_values();
    prefix::lemma_read_back(bits, p2, runs[0].signal as nat, 8);
    let src = lemma_two_tables(seq, bits);
    assert(runs.subrange(0, 0) =~= Seq::empty());
    assert(runs_total(runs.subrange(0, 0)) == 0);
    lemma_runs(src, tables, runs, 0, p2 + 8, total);
    assert(runs.subrange(0, runs.len() as int) =~= runs);
}

} // verus!
