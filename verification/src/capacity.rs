//! How large pictures may be for all Huffman codes to fit their table headers.
use crate::bitstream;
use crate::config;
use crate::entropy::depth;
use crate::entropy::rle;
use crate::entropy::roundtrip;
use crate::entropy::rle::{CoeffEvent, TemporalRun, LSB, MSB, RL};
use crate::picture;
use crate::picture::FrameJob;
use crate::plane;
use crate::plane::PlaneJob;
use crate::reconstruct;
use crate::runs;
use crate::selfcheck;
use vstd::prelude::*;

verus! {

proof fn lemma_context_concat(a: Seq<(usize, u8)>, b: Seq<(usize, u8)>, ctx: usize)
    ensures
        rle::context_bytes(a + b, ctx).len() == rle::context_bytes(a, ctx).len()
            + rle::context_bytes(b, ctx).len(),
    decreases b.len(),
{
    if b.len() > 0 {
        assert((a + b).drop_last() =~= a + b.drop_last());
        assert((a + b).last() == b.last());
        lemma_context_concat(a, b.drop_last(), ctx);
    } else {
        assert(a + b =~= a);
    }
}

proof fn lemma_in_context(own: usize, bytes: Seq<u8>, ctx: usize)
    ensures
        rle::context_bytes(rle::in_context(own, bytes), ctx).len() <= bytes.len(),
        own != ctx ==> rle::context_bytes(rle::in_context(own, bytes), ctx).len() == 0,
    decreases bytes.len(),
{
    let s = rle::in_context(own, bytes);
    if bytes.len() > 0 {
        assert(s.drop_last() =~= rle::in_context(own, bytes.drop_last()));
        lemma_in_context(own, bytes.drop_last(), ctx);
    }
}

/// A number takes at most as many groups as it counts.
proof fn lemma_groups_count(v: nat, last: bool)
    requires
        v >= 1,
    ensures
        bitstream::groups7(v, last).len() <= v,
    decreases v,
{
    if v >= 128 {
        lemma_groups_count(v / 128, false);
    }
}

/// One event has at most one symbol per context for its value, and one per zero for its run.
proof fn lemma_event_context(ev: CoeffEvent, ctx: usize)
    ensures
        rle::context_bytes(rle::event_symbols(ev), ctx).len() <= 1 + ev.zero_run,
{
    let run = rle::run_symbols(ev.zero_run);
    assert(rle::context_bytes(run, ctx).len() <= ev.zero_run && (ctx != RL ==> rle::context_bytes(
        run,
        ctx,
    ).len() == 0)) by {
        if ev.zero_run > 0 {
            lemma_in_context(RL, bitstream::multibyte(ev.zero_run as nat), ctx);
            lemma_groups_count(ev.zero_run as nat, true);
        }
    }
    reveal_with_fuel(rle::context_bytes, 3);
    match rle::value_bytes(ev.value as int) {
        (lsb, None) => {
            let head = seq![(LSB, rle::flagged(lsb, ev.zero_run))];
            lemma_context_concat(head, run, ctx);
            assert(head.drop_last() =~= Seq::empty());
        },
        (lsb, Some(msb)) => {
            let head = seq![(LSB, lsb), (MSB, rle::flagged(msb, ev.zero_run))];
            lemma_context_concat(head, run, ctx);
            assert(head.drop_last() =~= seq![(LSB, lsb)]);
            assert(head.drop_last().drop_last() =~= Seq::empty());
        },
    }
}

/// A context has no more symbols than the events stand for coefficients.
proof fn lemma_events_context(events: Seq<CoeffEvent>, ctx: usize)
    ensures
        rle::context_bytes(rle::events_symbols(events), ctx).len() <= runs::expanded(events).len(),
    decreases events.len(),
{
    if events.len() > 0 {
        lemma_events_context(events.drop_last(), ctx);
        lemma_event_context(events.last(), ctx);
        lemma_context_concat(
            rle::events_symbols(events.drop_last()),
            rle::event_symbols(events.last()),
            ctx,
        );
    }
}

/// A context has no more symbols than the runs stand for signals.
proof fn lemma_runs_context(list: Seq<TemporalRun>, ctx: usize)
    requires
        forall|i: int| 0 <= i < list.len() ==> #[trigger] list[i].count > 0,
    ensures
        rle::context_bytes(rle::runs_symbols(list), ctx).len() <= runs::expanded_signals(
            list,
        ).len(),
    decreases list.len(),
{
    if list.len() > 0 {
        let before = list.drop_last();
        assert forall|i: int| 0 <= i < before.len() implies #[trigger] before[i].count > 0 by {
            assert(list[i].count > 0);
        }
        lemma_runs_context(before, ctx);
        let last = list.last();
        assert(last.count > 0);
        let bytes = bitstream::multibyte(last.count as nat);
        lemma_in_context(last.signal as usize, bytes, ctx);
        lemma_groups_count(last.count as nat, true);
        lemma_context_concat(
            rle::runs_symbols(before),
            rle::in_context(last.signal as usize, bytes),
            ctx,
        );
    }
}

/// The chunk of a layer with few TUs fits its table headers.
proof fn lemma_layer_fits(levels: Seq<Seq<i16>>, layer: int, loq: int)
    requires
        2 * levels.len() < depth::SHORT_CODES,
    ensures
        selfcheck::layer_fits(levels, layer, loq),
{
    let column = runs::layer_column(levels, layer);
    let events = runs::layer_events(column, loq == 1);
    let seq = rle::events_symbols(events);
    runs::law_events_expand(column);
    runs::lemma_run_state_bound(column);
    assert(runs::expanded(events).len() <= 2 * levels.len());
    lemma_events_context(events, LSB);
    lemma_events_context(events, MSB);
    lemma_events_context(events, RL);
    depth::lemma_context_fits(seq, LSB);
    depth::lemma_context_fits(seq, MSB);
    depth::lemma_context_fits(seq, RL);
}

/// The chunk of few temporal signals fits its table headers.
proof fn lemma_signals_fit(signals: Seq<u8>)
    requires
        signals.len() < depth::SHORT_CODES,
        forall|i: int| 0 <= i < signals.len() ==> #[trigger] signals[i] <= 1,
    ensures
        roundtrip::tables_fit(
            rle::size_tables(rle::runs_symbols(runs::signal_runs(signals))),
        ),
{
    let list = runs::signal_runs(signals);
    let seq = rle::runs_symbols(list);
    runs::law_signal_runs(signals);
    assert forall|i: int| 0 <= i < list.len() implies #[trigger] list[i].count > 0 by {
        assert(list[i].signal <= 1);
    }
    lemma_runs_context(list, LSB);
    lemma_runs_context(list, MSB);
    depth::lemma_context_fits(seq, LSB);
    depth::lemma_context_fits(seq, MSB);
}

/// A plane with few TUs, at both LOQs.
pub open spec fn few_tus(j: PlaneJob) -> bool {
    &&& 2 * reconstruct::plane_tus(j.config, 1, j.plane) < depth::SHORT_CODES
    &&& 2 * reconstruct::plane_tus(j.config, 0, j.plane) < depth::SHORT_CODES
}

/// The Huffman codes of a plane with fewer than 2851444 TUs fit their table headers, whatever
/// its samples are: 45 million samples with 4x4 transforms, 11 million with 2x2 transforms.
pub proof fn law_few_tus_fit(j: PlaneJob)
    requires
        plane::job_ok(j),
        selfcheck::plain_job(j),
        few_tus(j),
    ensures
        selfcheck::chunks_fit(j),
{
    let n = config::layers_of(j.config.transform) as int;
    selfcheck::lemma_counts(j);
    let levels1 = plane::loq1_state(j, 1).levels;
    let levels0 = plane::loq0_state(j, 1).levels;
    assert forall|l: int| 0 <= l < n implies #[trigger] selfcheck::layer_fits(levels1, l, 1) by {
        lemma_layer_fits(levels1, l, 1);
    }
    assert forall|l: int| 0 <= l < n implies #[trigger] selfcheck::layer_fits(levels0, l, 0) by {
        lemma_layer_fits(levels0, l, 0);
    }
    lemma_signals_fit(plane::loq0_state(j, 1).signals);
}

/// A frame with few TUs per plane, predicted or not, meets what its decoding to the encoder's
/// picture asks for: its codes always fit.
pub proof fn law_few_tus_frame_fits(f: FrameJob)
    requires
        picture::frame_ok(f),
        selfcheck::frame_plain(f),
        forall|p: int| 0 <= p < picture::planes(f) ==> few_tus(#[trigger] picture::plane_job(f, p)),
    ensures
        selfcheck::frame_fits(f),
{
    assert forall|p: int| 0 <= p < picture::planes(f) implies selfcheck::chunks_fit(
        #[trigger] picture::plane_job(f, p),
    ) by {
        law_few_tus_fit(picture::plane_job(f, p));
    }
}

} // verus!
