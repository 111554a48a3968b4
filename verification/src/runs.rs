//! Coefficient sequences of a layer as (value, zero run) events.
//!
//! Event semantics: `(value, zeros)` means the value occupies the current TU and the `zeros`
//! following TUs are zero. So a run of `run` leading zeros before the first nonzero coefficient
//! is signalled as `(0, run - 1)`.
use crate::entropy::rle::{CoeffEvent, TemporalRun};
use crate::entropy::roundtrip;
use vstd::prelude::*;

verus! {

/// Events with the zero run of the last one prolonged.
pub open spec fn prolonged(events: Seq<CoeffEvent>, run: int) -> Seq<CoeffEvent> {
    let last = events.last();
    events.update(
        events.len() - 1,
        CoeffEvent { value: last.value, zero_run: (last.zero_run + run) as u32 },
    )
}

/// Events after a run of zeros has been entered; a run before all events becomes an event of
/// its own.
pub open spec fn flushed(events: Seq<CoeffEvent>, run: int) -> Seq<CoeffEvent> {
    if run == 0 {
        events
    } else if events.len() > 0 {
        prolonged(events, run)
    } else {
        seq![CoeffEvent { value: 0, zero_run: (run - 1) as u32 }]
    }
}

/// The events of a coefficient sequence, and the zeros at its end that are not in them yet.
pub open spec fn run_state(s: Seq<i16>) -> (Seq<CoeffEvent>, int)
    decreases s.len(),
{
    if s.len() == 0 {
        (Seq::empty(), 0)
    } else {
        let (events, run) = run_state(s.drop_last());
        if s.last() == 0 {
            (events, run + 1)
        } else {
            (flushed(events, run).push(CoeffEvent { value: s.last(), zero_run: 0 }), 0)
        }
    }
}

/// The events of a layer. `twice` enters the zeros at the end a second time.
pub open spec fn layer_events(s: Seq<i16>, twice: bool) -> Seq<CoeffEvent> {
    let (events, run) = run_state(s);
    let once = flushed(events, run);
    if twice {
        flushed(once, run)
    } else {
        once
    }
}

/// `n` zero coefficients.
pub open spec fn zero_coeffs(n: int) -> Seq<i16> {
    Seq::new(n as nat, |i: int| 0i16)
}

/// The coefficients that events stand for.
pub open spec fn expanded(events: Seq<CoeffEvent>) -> Seq<i16>
    decreases events.len(),
{
    if events.len() == 0 {
        Seq::empty()
    } else {
        expanded(events.drop_last()).push(events.last().value) + zero_coeffs(
            events.last().zero_run as int,
        )
    }
}

/// Push one quantized coefficient into a layer's event list, accumulating zero runs between
/// nonzero values. `run` tracks the zeros seen so far (passed in/out across TU boundaries).
pub fn push_coeff(events: &mut Vec<CoeffEvent>, run: &mut u32, c: i16)
    requires
        *old(run) < u32::MAX,
        old(events)@.len() > 0 ==> old(events)@.last().zero_run + *old(run) <= u32::MAX,
    ensures
        c == 0 ==> final(events)@ == old(events)@ && *final(run) == *old(run) + 1,
        c != 0 ==> final(events)@ == flushed(old(events)@, *old(run) as int).push(
            CoeffEvent { value: c, zero_run: 0 },
        ) && *final(run) == 0,
{
    if c == 0 {
        *run = *run + 1;
        return;
    }
    flush_run(events, *run);
    *run = 0;
    events.push(CoeffEvent { value: c, zero_run: 0 });
}

/// Flush the accumulated trailing zero run into the event list so that the stream covers every
/// TU of the plane. Without this a decoder would consume padding bits as coefficients for the
/// final TUs.
pub fn flush_run(events: &mut Vec<CoeffEvent>, run: u32)
    requires
        old(events)@.len() > 0 ==> old(events)@.last().zero_run + run <= u32::MAX,
    ensures
        final(events)@ == flushed(old(events)@, run as int),
{
    if run == 0 {
        return;
    }
    let n: usize = events.len();
    if n > 0 {
        let last: CoeffEvent = events[n - 1];
        events.set(n - 1, CoeffEvent { value: last.value, zero_run: last.zero_run + run });
        assert(events@ =~= flushed(old(events)@, run as int));
    } else {
        events.push(CoeffEvent { value: 0, zero_run: run - 1 });
        assert(events@ =~= flushed(old(events)@, run as int));
    }
}

/// Zero runs and pending zeros are no longer than the sequence.
pub proof fn lemma_run_state_bound(s: Seq<i16>)
    ensures
        0 <= run_state(s).1 <= s.len(),
        run_state(s).0.len() <= s.len(),
        s.len() <= u32::MAX && run_state(s).0.len() > 0 ==> run_state(s).0.last().zero_run
            + run_state(s).1 < s.len(),
        run_state(s).0.len() == 0 ==> run_state(s).1 == s.len(),
    decreases s.len(),
{
    if s.len() > 0 {
        lemma_run_state_bound(s.drop_last());
    }
}

/// The events of one layer, from the coefficients of its TUs.
pub fn events_of_layer(coeffs: &Vec<Vec<i16>>, layer: usize, twice: bool) -> (events: Vec<
    CoeffEvent,
>)
    requires
        coeffs@.len() <= 0x7fff_ffff,
        forall|i: int| 0 <= i < coeffs@.len() ==> layer < #[trigger] coeffs@[i]@.len(),
    ensures
        events@ == layer_events(layer_column(coeffs_view(coeffs@), layer as int), twice),
{
    let ghost column = layer_column(coeffs_view(coeffs@), layer as int);
    let mut events: Vec<CoeffEvent> = Vec::new();
    let mut run: u32 = 0;
    let mut i: usize = 0;
    assert(column.subrange(0, 0) =~= Seq::empty());
    while i < coeffs.len()
        invariant
            i <= coeffs@.len() <= 0x7fff_ffff,
            forall|i: int| 0 <= i < coeffs@.len() ==> layer < #[trigger] coeffs@[i]@.len(),
            column == layer_column(coeffs_view(coeffs@), layer as int),
            (events@, run as int) == run_state(column.subrange(0, i as int)),
        decreases coeffs@.len() - i,
    {
        proof {
            lemma_run_state_bound(column.subrange(0, i as int));
            assert(layer < coeffs@[i as int]@.len());
            assert(column.subrange(0, i + 1).drop_last() =~= column.subrange(0, i as int));
        }
        push_coeff(&mut events, &mut run, coeffs[i][layer]);
        i = i + 1;
    }
    proof {
        assert(column.subrange(0, i as int) =~= column);
        lemma_run_state_bound(column);
    }
    flush_run(&mut events, run);
    if twice {
        flush_run(&mut events, run);
    }
    events
}

/// The coefficients of TUs.
pub open spec fn coeffs_view(coeffs: Seq<Vec<i16>>) -> Seq<Seq<i16>> {
    Seq::new(coeffs.len(), |i: int| coeffs[i]@)
}

/// The coefficients of one layer, over all TUs.
pub open spec fn layer_column(coeffs: Seq<Seq<i16>>, layer: int) -> Seq<i16> {
    Seq::new(coeffs.len(), |i: int| coeffs[i][layer])
}

proof fn lemma_expand_flushed(events: Seq<CoeffEvent>, run: int)
    requires
        0 <= run <= u32::MAX,
        events.len() > 0 ==> events.last().zero_run + run <= u32::MAX,
    ensures
        expanded(flushed(events, run)) == expanded(events) + zero_coeffs(run),
        events.len() > 0 ==> flushed(events, run).drop_last() == events.drop_last(),
        events.len() > 0 ==> flushed(events, run).len() == events.len(),
{
    if run == 0 {
        assert(expanded(events) + zero_coeffs(run) =~= expanded(events));
    } else if events.len() > 0 {
        let f = flushed(events, run);
        let last = events.last();
        assert(f.drop_last() =~= events.drop_last());
        assert(expanded(f) =~= expanded(events) + zero_coeffs(run));
    } else {
        let f = flushed(events, run);
        assert(f.drop_last() =~= Seq::empty());
        assert(expanded(f.drop_last()) =~= Seq::empty());
        assert(expanded(f) =~= expanded(events) + zero_coeffs(run));
    }
}

proof fn lemma_expand_state(s: Seq<i16>)
    requires
        s.len() <= 0x7fff_ffff,
    ensures
        expanded(run_state(s).0) + zero_coeffs(run_state(s).1) == s,
    decreases s.len(),
{
    if s.len() == 0 {
        assert(expanded(run_state(s).0) + zero_coeffs(run_state(s).1) =~= s);
    } else {
        let d = s.drop_last();
        lemma_expand_state(d);
        lemma_run_state_bound(d);
        let (events, run) = run_state(d);
        if s.last() == 0 {
            assert(s =~= d.push(0));
            assert(zero_coeffs(run + 1) =~= zero_coeffs(run).push(0));
            assert(expanded(events) + zero_coeffs(run).push(0) =~= (expanded(events) + zero_coeffs(
                run,
            )).push(0));
        } else {
            lemma_expand_flushed(events, run);
            let f = flushed(events, run);
            let e = f.push(CoeffEvent { value: s.last(), zero_run: 0 });
            assert(e.drop_last() =~= f);
            assert(expanded(e) + zero_coeffs(0) =~= s);
        }
    }
}

/// The events of a layer stand for its coefficients, one for every TU. Zeros entered a second
/// time follow after the last TU.
pub proof fn law_events_expand(s: Seq<i16>)
    requires
        s.len() <= 0x7fff_ffff,
    ensures
        expanded(layer_events(s, false)) == s,
        expanded(layer_events(s, true)) == s + zero_coeffs(run_state(s).1),
{
    let (events, run) = run_state(s);
    lemma_expand_state(s);
    lemma_run_state_bound(s);
    lemma_expand_flushed(events, run);
    let once = flushed(events, run);
    lemma_flushed_last(events, run);
    lemma_expand_flushed(once, run);
}

proof fn lemma_flushed_last(events: Seq<CoeffEvent>, run: int)
    requires
        0 <= run <= 0x7fff_ffff,
        events.len() > 0 ==> events.last().zero_run + run <= 0x7fff_ffff,
    ensures
        flushed(events, run).len() > 0 ==> flushed(events, run).last().zero_run <= 0x7fff_ffff,
{
}

proof fn lemma_coverage_expanded(events: Seq<CoeffEvent>)
    ensures
        roundtrip::coverage(events) == expanded(events).len(),
    decreases events.len(),
{
    if events.len() > 0 {
        lemma_coverage_expanded(events.drop_last());
    }
}

proof fn lemma_state_carried(s: Seq<i16>)
    requires
        forall|i: int| 0 <= i < s.len() ==> -8192 <= #[trigger] s[i] <= 8191,
    ensures
        forall|i: int|
            0 <= i < run_state(s).0.len() ==> roundtrip::carried(#[trigger] run_state(s).0[i]),
    decreases s.len(),
{
    if s.len() > 0 {
        let d = s.drop_last();
        assert forall|i: int| 0 <= i < d.len() implies -8192 <= #[trigger] d[i] <= 8191 by {
            assert(d[i] == s[i]);
        }
        lemma_state_carried(d);
        assert(-8192 <= s[s.len() - 1] <= 8191);
        let (events, run) = run_state(d);
        if s.last() != 0 {
            let f = flushed(events, run);
            let e = f.push(CoeffEvent { value: s.last(), zero_run: 0 });
            assert forall|i: int| 0 <= i < e.len() implies roundtrip::carried(
                #[trigger] e[i],
            ) by {
                if i < f.len() {
                    assert(e[i] == f[i]);
                    if events.len() > 0 {
                        assert(f.len() == events.len());
                        assert(roundtrip::carried(events[i]));
                        assert(f[i].value == events[i].value);
                    }
                }
            }
        }
    }
}

/// What a reader needs to know of the events of a layer: their values can be carried, and they
/// end with the last TU.
pub proof fn lemma_layer_events(s: Seq<i16>, twice: bool)
    requires
        0 < s.len() <= 0x7fff_ffff,
        forall|i: int| 0 <= i < s.len() ==> -8192 <= #[trigger] s[i] <= 8191,
    ensures
        0 < layer_events(s, twice).len() <= s.len() + 1,
        forall|i: int|
            0 <= i < layer_events(s, twice).len() ==> roundtrip::carried(
                #[trigger] layer_events(s, twice)[i],
            ),
        roundtrip::coverage(layer_events(s, twice).drop_last()) < s.len()
            <= roundtrip::coverage(layer_events(s, twice)),
{
    let (events, run) = run_state(s);
    let once = flushed(events, run);
    let out = layer_events(s, twice);
    lemma_run_state_bound(s);
    lemma_state_carried(s);
    law_events_expand(s);
    lemma_coverage_expanded(out);
    lemma_coverage_expanded(out.drop_last());
    lemma_coverage_expanded(once);
    lemma_coverage_expanded(once.drop_last());
    lemma_flushed_last(events, run);
    lemma_expand_flushed(events, run);
    lemma_expand_flushed(once, run);
    assert(expanded(once).len() == s.len());
    assert(once.len() > 0) by {
        if once.len() == 0 {
            assert(expanded(once).len() == 0);
        }
    }
    assert(out.drop_last() == once.drop_last());
    assert(expanded(once).len() == expanded(once.drop_last()).len() + 1 + once.last().zero_run);
    assert forall|i: int| 0 <= i < out.len() implies roundtrip::carried(#[trigger] out[i]) by {
        assert(forall|i: int| 0 <= i < events.len() ==> roundtrip::carried(#[trigger] events[i]));
        assert(out.len() == once.len());
        if events.len() > 0 {
            assert(out[i].value == events[i].value);
        }
    }
}

/// Temporal signals as runs of equal signals.
pub open spec fn signal_runs(s: Seq<u8>) -> Seq<TemporalRun>
    decreases s.len(),
{
    if s.len() == 0 {
        Seq::empty()
    } else {
        let runs = signal_runs(s.drop_last());
        if runs.len() > 0 && runs.last().signal == s.last() {
            runs.update(
                runs.len() - 1,
                TemporalRun { signal: s.last(), count: (runs.last().count + 1) as u32 },
            )
        } else {
            runs.push(TemporalRun { signal: s.last(), count: 1 })
        }
    }
}

/// `n` times the same signal.
pub open spec fn same_signals(signal: u8, n: int) -> Seq<u8> {
    Seq::new(n as nat, |i: int| signal)
}

/// The signals that runs stand for.
pub open spec fn expanded_signals(runs: Seq<TemporalRun>) -> Seq<u8>
    decreases runs.len(),
{
    if runs.len() == 0 {
        Seq::empty()
    } else {
        expanded_signals(runs.drop_last()) + same_signals(
            runs.last().signal,
            runs.last().count as int,
        )
    }
}

/// Runs stand for the signals that they were made of. They are written in full: no run is empty,
/// and the signals 0 and 1 alternate.
pub proof fn law_signal_runs(s: Seq<u8>)
    requires
        s.len() <= 0x7fff_ffff,
        forall|i: int| 0 <= i < s.len() ==> #[trigger] s[i] <= 1,
    ensures
        expanded_signals(signal_runs(s)) == s,
        roundtrip::runs_valid(signal_runs(s)),
        roundtrip::runs_total(signal_runs(s)) == s.len(),
        signal_runs(s).len() <= s.len(),
        s.len() > 0 ==> signal_runs(s).len() > 0 && signal_runs(s).last().signal == s.last()
            && signal_runs(s).last().count <= s.len() && roundtrip::runs_total(
            signal_runs(s).drop_last(),
        ) < s.len(),
    decreases s.len(),
{
    if s.len() > 0 {
        let rest = s.drop_last();
        law_signal_runs(rest);
        let runs = signal_runs(rest);
        let out = signal_runs(s);
        if runs.len() > 0 && runs.last().signal == s.last() {
            let n = runs.last().count as int;
            assert(out.drop_last() =~= runs.drop_last());
            assert(same_signals(s.last(), n + 1) =~= same_signals(s.last(), n).push(s.last()));
            assert(expanded_signals(out) =~= expanded_signals(runs).push(s.last()));
            assert(expanded_signals(out) =~= s);
            assert forall|i: int| 0 <= i < out.len() implies #[trigger] out[i].signal == (
            out[0].signal + i) % 2 && out[i].signal <= 1 && out[i].count > 0 by {
                assert(runs[i].signal == (runs[0].signal + i) % 2);
                assert(out[i].signal == runs[i].signal);
            }
        } else {
            assert(out.drop_last() =~= runs);
            assert(same_signals(s.last(), 1) =~= seq![s.last()]);
            assert(expanded_signals(out) =~= s);
            if runs.len() > 0 {
                assert(runs.last().signal == (runs[0].signal + (runs.len() - 1)) % 2);
            } else {
                assert(rest.len() == 0);
            }
            assert forall|i: int| 0 <= i < out.len() implies #[trigger] out[i].signal == (
            out[0].signal + i) % 2 && out[i].signal <= 1 && out[i].count > 0 by {
                if i < runs.len() {
                    assert(runs[i].signal == (runs[0].signal + i) % 2);
                }
            }
        }
    }
}

/// The runs of temporal signals.
pub fn runs_of_signals(signals: &Vec<u8>) -> (runs: Vec<TemporalRun>)
    requires
        signals@.len() <= 0x7fff_ffff,
        forall|i: int| 0 <= i < signals@.len() ==> #[trigger] signals@[i] <= 1,
    ensures
        runs@ == signal_runs(signals@),
{
    let mut runs: Vec<TemporalRun> = Vec::new();
    let mut i: usize = 0;
    while i < signals.len()
        invariant
            i <= signals@.len() <= 0x7fff_ffff,
            forall|i: int| 0 <= i < signals@.len() ==> #[trigger] signals@[i] <= 1,
            runs@ == signal_runs(signals@.subrange(0, i as int)),
        decreases signals@.len() - i,
    {
        let ghost part = signals@.subrange(0, i + 1);
        proof {
            law_signal_runs(signals@.subrange(0, i as int));
            assert(part.drop_last() =~= signals@.subrange(0, i as int));
        }
        let signal: u8 = signals[i];
        let n: usize = runs.len();
        if n > 0 && runs[n - 1].signal == signal {
            let count: u32 = runs[n - 1].count;
            runs.set(n - 1, TemporalRun { signal, count: count + 1 });
        } else {
            runs.push(TemporalRun { signal, count: 1 });
        }
        i = i + 1;
    }
    assert(signals@.subrange(0, i as int) =~= signals@);
    runs
}

} // verus!
