//! Full-frame passes: the sample<->s16 fixed-point conversions and squared-difference (SSE)
//! accumulation.
use crate::frame;
use vstd::prelude::*;

verus! {

/// Convert samples to the internal i16 fixed-point representation.
pub fn samples_to_s16(data: &[u16], out: &mut [i16], depth: u8)
    requires
        depth <= 15,
        data@.len() == old(out)@.len(),
    ensures
        final(out)@ == Seq::new(
            data@.len(),
            |i: int| frame::fixed_of_sample(data@[i] as int, depth as int) as i16,
        ),
{
    let ghost all = Seq::new(
        data@.len(),
        |i: int| frame::fixed_of_sample(data@[i] as int, depth as int) as i16,
    );
    let mut i: usize = 0;
    while i < data.len()
        invariant
            i <= data@.len() == out@.len(),
            depth <= 15,
            all == Seq::new(
                data@.len(),
                |i: int| frame::fixed_of_sample(data@[i] as int, depth as int) as i16,
            ),
            forall|k: int| 0 <= k < i ==> #[trigger] out@[k] == all[k],
        decreases data@.len() - i,
    {
        out[i] = frame::sample_to_s16(data[i], depth);
        i = i + 1;
    }
    assert(out@ =~= all);
}

/// Convert i16 fixed-point back to samples (rounding + offset + clamp).
pub fn s16_to_samples(data: &[i16], out: &mut [u16], depth: u8)
    requires
        1 <= depth <= 14,
        data@.len() == old(out)@.len(),
    ensures
        final(out)@ == Seq::new(
            data@.len(),
            |i: int| frame::sample_of_fixed(data@[i] as int, depth as int) as u16,
        ),
{
    let ghost all = Seq::new(
        data@.len(),
        |i: int| frame::sample_of_fixed(data@[i] as int, depth as int) as u16,
    );
    let mut i: usize = 0;
    while i < data.len()
        invariant
            i <= data@.len() == out@.len(),
            1 <= depth <= 14,
            all == Seq::new(
                data@.len(),
                |i: int| frame::sample_of_fixed(data@[i] as int, depth as int) as u16,
            ),
            forall|k: int| 0 <= k < i ==> #[trigger] out@[k] == all[k],
        decreases data@.len() - i,
    {
        out[i] = frame::s16_to_sample(data[i], depth);
        i = i + 1;
    }
    assert(out@ =~= all);
}

/// The sum of squared differences of the first `n` samples.
pub open spec fn squared_diff(a: Seq<u16>, b: Seq<u16>, n: int) -> int
    decreases n,
{
    if n <= 0 {
        0
    } else {
        squared_diff(a, b, n - 1) + (a[n - 1] - b[n - 1]) * (a[n - 1] - b[n - 1])
    }
}

/// Sum of squared u16 differences: `sum (a[i]-b[i])^2`.
pub fn sse_diff_u16(a: &[u16], b: &[u16]) -> (sse: u64)
    requires
        a@.len() == b@.len(),
        a@.len() <= 0x1_0000_0000,
    ensures
        sse == squared_diff(a@, b@, a@.len() as int),
        sse <= 0xfffe_0001 * a@.len(),
{
    let mut sse: u64 = 0;
    let mut i: usize = 0;
    while i < a.len()
        invariant
            i <= a@.len() == b@.len(),
            a@.len() <= 0x1_0000_0000,
            sse == squared_diff(a@, b@, i as int),
            sse <= 0xfffe_0001 * i,
        decreases a@.len() - i,
    {
        let d: i64 = a[i] as i64 - b[i] as i64;
        assert(0 <= d * d <= 0xfffe_0001) by (nonlinear_arith)
            requires
                -65535 <= d <= 65535,
        ;
        sse = sse + (d * d) as u64;
        i = i + 1;
    }
    sse
}

} // verus!
